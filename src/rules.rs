//! Move legality, check detection and the commitment of moves.
use vstd::prelude::*;

use crate::chess_board::{file_in_range, team_index, ChessBoard, SelectionMode};
use crate::chess_piece::moves::{all_move_sets, all_moves, catalog, move_catalog, MoveSet};
use crate::chess_piece::{lemma_unique_factor, scaled, ChessPiece, PieceKind, PieceMove, PieceTeam};

verus! {

/// Whether `x` is representable as an `isize`.
pub open spec fn in_isize(x: int) -> bool {
    isize::MIN <= x <= isize::MAX
}

/// Whether `cat[i]` is the first move of `cat` that produces the displacement (`dr`, `df`).
pub open spec fn is_first_match(cat: Seq<PieceMove>, dr: int, df: int, i: int) -> bool {
    &&& 0 <= i < cat.len()
    &&& cat[i].matches_offset(dr, df)
    &&& forall|j: int| 0 <= j < i ==> !(#[trigger] cat[j]).matches_offset(dr, df)
}

/// The first move of `cat` that produces the displacement (`dr`, `df`), if any does.
pub open spec fn selected_move(cat: Seq<PieceMove>, dr: int, df: int) -> Option<PieceMove> {
    if exists|i: int| is_first_match(cat, dr, df, i) {
        Some(cat[choose|i: int| is_first_match(cat, dr, df, i)])
    } else {
        None
    }
}

/// How many steps of a repeating move make up the displacement (`dr`, `df`).
pub open spec fn step_count(m: PieceMove, dr: int, df: int) -> int {
    choose|k: int|
        k >= 1 && dr == #[trigger] scaled(k, m.offset[0] as int) && df == scaled(
            k,
            m.offset[1] as int,
        )
}

/// Whether move `m` has a nonzero offset.
pub open spec fn moves_somewhere(m: PieceMove) -> bool {
    m.offset[0] != 0 || m.offset[1] != 0
}

/// Every catalog move has a nonzero offset, and takes an ally only to castle with a rook.
pub proof fn lemma_catalog_moves_somewhere(set: MoveSet, i: int)
    requires
        0 <= i < catalog(set).len(),
    ensures
        moves_somewhere(catalog(set)[i]),
        catalog(set)[i].can_capture_ally ==> catalog(set)[i].forced_capture_kind == Some(
            PieceKind::Rook,
        ),
{
}

impl ChessBoard {
    /// Every square strictly between `from` and the `k`-th step of `m` is empty.
    pub open spec fn ray_clear(&self, from: [isize; 2], m: PieceMove, k: int) -> bool {
        forall|j: int|
            1 <= j < k ==> (#[trigger] self.square(
                from[0] + scaled(j, m.offset[0] as int),
                from[1] + scaled(j, m.offset[1] as int),
            )).is_none()
    }

    /// Whether move `m` of piece `p`, sent from `from` to `to` where `dest` stands, meets every
    /// condition that the move sets beside its geometry.
    pub open spec fn template_allows(
        &self,
        from: [isize; 2],
        to: [isize; 2],
        p: ChessPiece,
        dest: Option<ChessPiece>,
        m: PieceMove,
    ) -> bool {
        &&& (m.requires_opportunity ==> self.opportunity_location == Some(to))
        &&& (dest.is_some() && m.can_capture) || (dest.is_none() && m.can_move)
        &&& (m.pieces_must_be_new ==> p.moves == 0)
        &&& (dest matches Some(q) ==> {
            &&& (q.team == p.team ==> m.can_capture_ally)
            &&& (m.forced_capture_kind matches Some(k) ==> q.kind == k)
            &&& (m.pieces_must_be_new ==> q.moves == 0)
        })
        &&& (m.forced_motion_offset.is_some() ==> (m.spec_landing(from, to) matches Some(d)
            && self.spec_get_piece(d) == Some(None::<ChessPiece>)))
        &&& (m.captured_piece_offset.is_some() ==> (m.spec_carried_to(from) matches Some(d)
            && self.spec_get_piece(d) == Some(None::<ChessPiece>)))
        &&& (m.repeating ==> self.ray_clear(
            from,
            m,
            step_count(m, to[0] - from[0], to[1] - from[1]),
        ))
    }

    /// The move that takes the piece on `from` to `to`: the first move of its catalog whose
    /// geometry fits, provided that it meets its conditions. Only stored pieces move: the
    /// wall beyond the stored ranks does not. Check is not considered.
    pub open spec fn spec_check_move(&self, from: [isize; 2], to: [isize; 2]) -> Option<PieceMove> {
        let dr = to[0] - from[0];
        let df = to[1] - from[1];
        match (self.spec_get_piece(from), self.spec_get_piece(to)) {
            (Some(Some(p)), Some(dest)) => if self.spec_first_rank() <= from[0]
                <= self.spec_last_rank() && in_isize(dr) && in_isize(df) {
                match selected_move(catalog(p.spec_move_set()), dr, df) {
                    Some(m) => if self.template_allows(from, to, p, dest, m) {
                        Some(m)
                    } else {
                        None
                    },
                    None => None,
                }
            } else {
                None
            },
            _ => None,
        }
    }
}

/// The first move of `moves` that produces the displacement `offset`.
fn find_move(moves: &Vec<PieceMove>, offset: [isize; 2]) -> (r: Option<PieceMove>)
    ensures
        r == selected_move(moves@, offset[0] as int, offset[1] as int),
{
    let mut i: usize = 0;
    while i < moves.len()
        invariant
            i <= moves@.len(),
            forall|j: int| 0 <= j < i ==> !(#[trigger] moves@[j]).matches_offset(offset[0] as int, offset[1] as int),
        decreases moves.len() - i,
    {
        if moves[i].is_offset_valid(offset) {
            let ghost cat = moves@;
            proof {
                assert(is_first_match(cat, offset[0] as int, offset[1] as int, i as int));
                let c = choose|c: int| is_first_match(cat, offset[0] as int, offset[1] as int, c);
                if c < i {
                    assert(!cat[c].matches_offset(offset[0] as int, offset[1] as int));
                }
                if c > i {
                    assert(!cat[i as int].matches_offset(offset[0] as int, offset[1] as int));
                }
            }
            return Some(moves[i]);
        }
        i += 1;
    }
    None
}

/// The step count of a repeating move that goes somewhere is the only one that fits.
proof fn lemma_step_count(m: PieceMove, dr: int, df: int, k: int)
    requires
        moves_somewhere(m),
        k >= 1,
        dr == scaled(k, m.offset[0] as int),
        df == scaled(k, m.offset[1] as int),
    ensures
        step_count(m, dr, df) == k,
{
    let c = step_count(m, dr, df);
    assert(c >= 1 && dr == scaled(c, m.offset[0] as int) && df == scaled(c, m.offset[1] as int));
    if m.offset[0] != 0 {
        lemma_unique_factor(dr, m.offset[0] as int, c, k);
    } else {
        lemma_unique_factor(df, m.offset[1] as int, c, k);
    }
}

impl ChessBoard {
    /// Whether every square strictly between `from` and `to` along repeating move `m` is
    /// empty.
    fn ray_is_clear(&self, from: [isize; 2], to: [isize; 2], m: PieceMove) -> (r: bool)
        requires
            self.wf(),
            moves_somewhere(m),
            m.repeating,
            m.matches_offset(to[0] - from[0], to[1] - from[1]),
            file_in_range(from[1] as int),
            file_in_range(to[1] as int),
        ensures
            r == self.ray_clear(from, m, step_count(m, to[0] - from[0], to[1] - from[1])),
    {
        let ghost dr = to[0] - from[0];
        let ghost df = to[1] - from[1];
        let ghost k = choose|k: int|
            k >= 1 && dr == #[trigger] scaled(k, m.offset[0] as int) && df == scaled(k, m.offset[1] as int);
        proof {
            lemma_step_count(m, dr, df, k);
        }
        let step = m.offset();
        let mut tile = from;
        let ghost mut i: int = 0;
        loop
            invariant
                0 <= i < k,
                tile[0] == from[0] + scaled(i, m.offset[0] as int),
                tile[1] == from[1] + scaled(i, m.offset[1] as int),
                step[0] == m.offset[0],
                step[1] == m.offset[1],
                k >= 1 && dr == scaled(k, m.offset[0] as int) && df == scaled(k, m.offset[1] as int),
                dr == to[0] - from[0],
                df == to[1] - from[1],
                step_count(m, dr, df) == k,
                moves_somewhere(m),
                self.wf(),
                file_in_range(from[1] as int),
                file_in_range(to[1] as int),
                forall|j: int|
                    1 <= j <= i ==> (#[trigger] self.square(
                        from[0] + scaled(j, m.offset[0] as int),
                        from[1] + scaled(j, m.offset[1] as int),
                    )).is_none(),
            decreases k - i,
        {
            proof {
                // the next tile lies between `from` and `to`, so it is representable
                assert(scaled(i + 1, m.offset[0] as int) == scaled(i, m.offset[0] as int) + m.offset[0]) by (nonlinear_arith);
                assert(scaled(i + 1, m.offset[1] as int) == scaled(i, m.offset[1] as int) + m.offset[1]) by (nonlinear_arith);
                lemma_between(from[0] as int, m.offset[0] as int, i + 1, k);
                lemma_between(from[1] as int, m.offset[1] as int, i + 1, k);
            }
            tile = [tile[0] + step[0], tile[1] + step[1]];
            proof {
                i = i + 1;
            }
            if tile[0] == to[0] && tile[1] == to[1] {
                proof {
                    if i < k {
                        if m.offset[0] != 0 {
                            lemma_unique_factor(dr, m.offset[0] as int, i, k);
                        } else {
                            lemma_unique_factor(df, m.offset[1] as int, i, k);
                        }
                    }
                }
                return true;
            }
            proof {
                if i >= k {
                    assert(i == k);
                }
            }
            let here = self.get_piece(tile);
            match here {
                Some(Some(_)) => {
                    assert(i < k);
                    assert(!self.square(
                        from[0] + scaled(i, m.offset[0] as int),
                        from[1] + scaled(i, m.offset[1] as int),
                    ).is_none());
                    return false;
                },
                _ => {},
            }
        }
    }
}

/// A point `j` steps along from `a`, for `j` up to `k`, lies between `a` and the `k`-th step.
proof fn lemma_between(a: int, u: int, j: int, k: int)
    requires
        0 <= j <= k,
    ensures
        (a <= a + scaled(j, u) <= a + scaled(k, u)) || (a + scaled(k, u) <= a + scaled(j, u) <= a),
{
    if u >= 0 {
        assert(0 <= j * u <= k * u) by (nonlinear_arith)
            requires 0 <= j <= k, u >= 0;
    } else {
        assert(k * u <= j * u <= 0) by (nonlinear_arith)
            requires 0 <= j <= k, u < 0;
    }
}

impl ChessBoard {
    /// The move that takes the piece on `from` to `to`, as `spec_check_move` states it:
    /// `None` when there is no piece on `from`, `from` lies in the wall beyond the stored
    /// ranks, `to` is off the files, the displacement
    /// overflows, no move of the piece's catalog fits, or the first that fits is not allowed
    /// here.
    pub fn check_move(&self, from: [isize; 2], to: [isize; 2]) -> (r: Option<PieceMove>)
        requires
            self.wf(),
        ensures
            r == self.spec_check_move(from, to),
    {
        let starting_piece = match self.get_piece(from) {
            Some(Some(p)) => p,
            _ => return None,
        };
        let destination_tile = match self.get_piece(to) {
            Some(t) => t,
            None => return None,
        };
        if from[0] < self.first_rank() || from[0] > self.last_rank() {
            return None;
        }
        let offset = match (to[0].checked_sub(from[0]), to[1].checked_sub(from[1])) {
            (Some(rank_offset), Some(file_offset)) => [rank_offset, file_offset],
            _ => return None,
        };
        let moves = starting_piece.moves();
        let piece_move = match find_move(&moves, offset) {
            Some(m) => m,
            None => return None,
        };
        proof {
            let cat = catalog(starting_piece.spec_move_set());
            let i = choose|i: int| is_first_match(cat, offset[0] as int, offset[1] as int, i);
            lemma_catalog_moves_somewhere(starting_piece.spec_move_set(), i);
        }
        if piece_move.requires_opportunity {
            match self.opportunity_location {
                Some(o) => {
                    if !(o[0] == to[0] && o[1] == to[1]) {
                        return None;
                    }
                    assert(o =~= to);
                },
                None => return None,
            }
        }
        if !(destination_tile.is_some() && piece_move.can_capture || destination_tile.is_none()
            && piece_move.can_move) {
            return None;
        }
        if piece_move.pieces_must_be_new && starting_piece.moves != 0 {
            return None;
        }
        if let Some(occupant) = destination_tile {
            if occupant.team == starting_piece.team && !piece_move.can_capture_ally {
                return None;
            }
            if let Some(capture_kind) = piece_move.forced_capture_kind {
                if occupant.kind != capture_kind {
                    return None;
                }
            }
            if piece_move.pieces_must_be_new && occupant.moves != 0 {
                return None;
            }
        }
        if piece_move.forced_motion_offset.is_some() {
            match piece_move.apply_additional_motion_offset_to_move(from, to) {
                Some(landing) => match self.get_piece(landing) {
                    Some(None) => {},
                    _ => return None,
                },
                None => return None,
            }
        }
        if piece_move.captured_piece_offset.is_some() {
            match piece_move.apply_captured_piece_offset_to_origin(from) {
                Some(carried) => match self.get_piece(carried) {
                    Some(None) => {},
                    _ => return None,
                },
                None => return None,
            }
        }
        if piece_move.repeating {
            if !self.ray_is_clear(from, to, piece_move) {
                return None;
            }
        }
        Some(piece_move)
    }
}

impl ChessBoard {
    /// Where the moving piece lands: the move's forced landing, else `to`.
    pub open spec fn hypothetical_landing(
        from: [isize; 2],
        to: [isize; 2],
        m: Option<PieceMove>,
    ) -> [isize; 2] {
        match m {
            Some(mv) => mv.spec_landing(from, to).unwrap(),
            None => to,
        }
    }

    /// Where the piece on `to` is carried, if the move carries it.
    pub open spec fn hypothetical_carried(from: [isize; 2], m: Option<PieceMove>) -> Option<
        [isize; 2],
    > {
        match m {
            Some(mv) => mv.spec_carried_to(from),
            None => None,
        }
    }

    /// What square (`r`, `f`) would hold once the piece on `from` has made move `m` to `to`,
    /// without counting the move; `None` off the files. With no move, the board as it is.
    pub open spec fn square_after(
        &self,
        from: [isize; 2],
        to: [isize; 2],
        m: Option<PieceMove>,
        r: int,
        f: int,
    ) -> Option<Option<ChessPiece>> {
        let landing = Self::hypothetical_landing(from, to, m);
        let carried = Self::hypothetical_carried(from, m);
        if r == landing[0] && f == landing[1] {
            self.spec_get_piece(from)
        } else if carried matches Some(c) && r == c[0] && f == c[1] {
            self.spec_get_piece(to)
        } else if (r == from[0] && f == from[1]) || (r == to[0] && f == to[1]) {
            Some(None)
        } else if file_in_range(f) {
            Some(self.square(r, f))
        } else {
            None
        }
    }

    /// The square of the mover's king once the move is made.
    pub open spec fn king_square_after(
        &self,
        from: [isize; 2],
        to: [isize; 2],
        m: Option<PieceMove>,
    ) -> [isize; 2] {
        if self.spec_king_position() == from {
            Self::hypothetical_landing(from, to, m)
        } else {
            self.spec_king_position()
        }
    }

    /// Walking back from `king` by `j` steps of `t`'s offset, with every square passed empty,
    /// reaches an enemy piece whose catalog is `set`.
    pub open spec fn attack_at(
        &self,
        from: [isize; 2],
        to: [isize; 2],
        m: Option<PieceMove>,
        king: [isize; 2],
        set: MoveSet,
        t: PieceMove,
        j: int,
    ) -> bool {
        let r = king[0] - scaled(j, t.offset[0] as int);
        let f = king[1] - scaled(j, t.offset[1] as int);
        &&& j >= 1
        &&& t.repeating || j == 1
        &&& in_isize(r) && in_isize(f)
        &&& self.square_after(from, to, m, r, f) matches Some(Some(p)) && p.team
            == self.turn.spec_opposite() && p.spec_move_set() == set
        &&& forall|i: int|
            1 <= i < j ==> #[trigger] self.square_after(
                from,
                to,
                m,
                king[0] - scaled(i, t.offset[0] as int),
                king[1] - scaled(i, t.offset[1] as int),
            ) == Some(None::<ChessPiece>)
    }

    /// Whether the side to move would have its king attacked once move `m` from `from` to
    /// `to` is made: some capturing move `t` of some catalog `set`, walked back from the king,
    /// meets an enemy piece that moves by `set`.
    pub open spec fn in_check_after(&self, from: [isize; 2], to: [isize; 2], m: Option<PieceMove>) -> bool {
        exists|s: int, i: int, j: int|
            0 <= s < all_move_sets().len() && 0 <= i < catalog(all_move_sets()[s]).len()
                && catalog(all_move_sets()[s])[i].can_capture && #[trigger] self.attack_at(
                from,
                to,
                m,
                self.king_square_after(from, to, m),
                all_move_sets()[s],
                catalog(all_move_sets()[s])[i],
                j,
            )
    }

    /// Whether the king of the side to move is attacked now.
    pub open spec fn spec_in_check(&self) -> bool {
        self.in_check_after([0, 0], [0, 0], None)
    }

    /// `square_after`, computed from the landing and carried squares of the move.
    fn piece_after(
        &self,
        from: [isize; 2],
        to: [isize; 2],
        m: Option<PieceMove>,
        landing: [isize; 2],
        carried: Option<[isize; 2]>,
        c: [isize; 2],
    ) -> (r: Option<Option<ChessPiece>>)
        requires
            self.wf(),
            landing == Self::hypothetical_landing(from, to, m),
            carried == Self::hypothetical_carried(from, m),
        ensures
            r == self.square_after(from, to, m, c[0] as int, c[1] as int),
    {
        if c[0] == landing[0] && c[1] == landing[1] {
            self.get_piece(from)
        } else if carried.is_some() && c[0] == carried.unwrap()[0] && c[1] == carried.unwrap()[1] {
            self.get_piece(to)
        } else if (c[0] == from[0] && c[1] == from[1]) || (c[0] == to[0] && c[1] == to[1]) {
            Some(None)
        } else {
            self.get_piece(c)
        }
    }

    /// Whether walking back from `king` along capturing move `t` meets an enemy piece that
    /// moves by `set`, on the board after move `m`.
    fn attacked_along(
        &self,
        from: [isize; 2],
        to: [isize; 2],
        m: Option<PieceMove>,
        landing: [isize; 2],
        carried: Option<[isize; 2]>,
        king: [isize; 2],
        set: MoveSet,
        t: PieceMove,
    ) -> (r: bool)
        requires
            self.wf(),
            landing == Self::hypothetical_landing(from, to, m),
            carried == Self::hypothetical_carried(from, m),
            moves_somewhere(t),
        ensures
            r == exists|j: int| self.attack_at(from, to, m, king, set, t, j),
    {
        let step = t.offset();
        let mut pos = king;
        let ghost mut j: int = 0;
        let ghost u0 = t.offset[0] as int;
        let ghost u1 = t.offset[1] as int;
        loop
            invariant
                self.wf(),
                landing == Self::hypothetical_landing(from, to, m),
                carried == Self::hypothetical_carried(from, m),
                moves_somewhere(t),
                step[0] == u0 && step[1] == u1,
                u0 == t.offset[0] && u1 == t.offset[1],
                j >= 0,
                j >= 1 ==> t.repeating,
                pos[0] == king[0] - scaled(j, u0),
                pos[1] == king[1] - scaled(j, u1),
                forall|i: int|
                    1 <= i <= j ==> #[trigger] self.square_after(
                        from,
                        to,
                        m,
                        king[0] - scaled(i, u0),
                        king[1] - scaled(i, u1),
                    ) == Some(None::<ChessPiece>),
            decreases (if u0 > 0 {
                pos[0] - isize::MIN
            } else if u0 < 0 {
                isize::MAX - pos[0]
            } else if u1 > 0 {
                pos[1] - isize::MIN
            } else {
                isize::MAX - pos[1]
            }),
        {
            proof {
                lemma_scaled_succ(j, u0);
                lemma_scaled_succ(j, u1);
            }
            let next = match (pos[0].checked_sub(step[0]), pos[1].checked_sub(step[1])) {
                (Some(r), Some(f)) => [r, f],
                _ => {
                    proof {
                        assert forall|k: int| !self.attack_at(from, to, m, king, set, t, k) by {
                            if k > j {
                                lemma_leaves_range(king[0] as int, u0, j + 1, k);
                                lemma_leaves_range(king[1] as int, u1, j + 1, k);
                            } else if k >= 1 {
                                assert(self.square_after(from, to, m, king[0] - scaled(k, u0), king[1] - scaled(k, u1)) == Some(None::<ChessPiece>));
                            }
                        }
                    }
                    return false;
                },
            };
            pos = next;
            proof {
                j = j + 1;
            }
            match self.piece_after(from, to, m, landing, carried, pos) {
                Some(Some(p)) => {
                    let found = p.team == self.turn.opposite() && p.move_set() == set;
                    proof {
                        if t.repeating || j == 1 {
                            assert forall|k: int| k != j implies !self.attack_at(from, to, m, king, set, t, k) by {
                                if k > j {
                                    assert(self.square_after(from, to, m, king[0] - scaled(j, u0), king[1] - scaled(j, u1)) != Some(None::<ChessPiece>));
                                } else if k >= 1 {
                                    assert(self.square_after(from, to, m, king[0] - scaled(k, u0), king[1] - scaled(k, u1)) == Some(None::<ChessPiece>));
                                }
                            }
                            if found {
                                assert(self.attack_at(from, to, m, king, set, t, j));
                            }
                        }
                    }
                    return found;
                },
                Some(None) => {},
                None => {
                    proof {
                        assert forall|k: int| !self.attack_at(from, to, m, king, set, t, k) by {
                            if k > j {
                                assert(self.square_after(from, to, m, king[0] - scaled(j, u0), king[1] - scaled(j, u1)) != Some(None::<ChessPiece>));
                            } else if k >= 1 && k < j {
                                assert(self.square_after(from, to, m, king[0] - scaled(k, u0), king[1] - scaled(k, u1)) == Some(None::<ChessPiece>));
                            }
                        }
                    }
                    return false;
                },
            }
            if !t.repeating {
                proof {
                    assert forall|k: int| !self.attack_at(from, to, m, king, set, t, k) by {
                        if k == 1 {
                            assert(self.square_after(from, to, m, king[0] - scaled(1, u0), king[1] - scaled(1, u1)) == Some(None::<ChessPiece>));
                        }
                    }
                }
                return false;
            }
        }
    }
}

proof fn lemma_scaled_succ(j: int, u: int)
    ensures
        scaled(j + 1, u) == scaled(j, u) + u,
{
    assert((j + 1) * u == j * u + u) by (nonlinear_arith);
}

/// Once walking back by steps of `u` from `a` leaves the range of `isize`, it never returns.
proof fn lemma_leaves_range(a: int, u: int, j: int, k: int)
    requires
        in_isize(a),
        1 <= j <= k,
    ensures
        !in_isize(a - scaled(j, u)) ==> !in_isize(a - scaled(k, u)),
{
    if u >= 0 {
        assert(j * u <= k * u) by (nonlinear_arith)
            requires j <= k, u >= 0;
        assert(0 <= j * u) by (nonlinear_arith)
            requires 1 <= j, u >= 0;
    } else {
        assert(k * u <= j * u) by (nonlinear_arith)
            requires j <= k, u < 0;
        assert(j * u <= 0) by (nonlinear_arith)
            requires 1 <= j, u < 0;
    }
}

impl ChessBoard {
    /// Whether the king of the side to move would be attacked once the piece on `from` has
    /// made `piece_move` to `to`; with no move, whether it is attacked now. The board itself is
    /// not changed: squares are read through the move.
    pub fn king_is_in_check_with_move(
        &self,
        from: [isize; 2],
        to: [isize; 2],
        piece_move: Option<PieceMove>,
    ) -> (r: bool)
        requires
            self.wf(),
            piece_move matches Some(mv) ==> mv.spec_landing(from, to).is_some(),
        ensures
            r == self.in_check_after(from, to, piece_move),
    {
        let landing = match piece_move {
            Some(mv) => match mv.apply_additional_motion_offset_to_move(from, to) {
                Some(d) => d,
                None => to,
            },
            None => to,
        };
        let carried = match piece_move {
            Some(mv) => mv.apply_captured_piece_offset_to_origin(from),
            None => None,
        };
        let current = self.get_king_position();
        let king = if current[0] == from[0] && current[1] == from[1] {
            assert(current =~= from);
            landing
        } else {
            current
        };
        let sets = all_moves();
        let mut s: usize = 0;
        while s < sets.len()
            invariant
                self.wf(),
                sets@ == all_move_sets(),
                s <= sets@.len(),
                landing == Self::hypothetical_landing(from, to, piece_move),
                carried == Self::hypothetical_carried(from, piece_move),
                king == self.king_square_after(from, to, piece_move),
                forall|s2: int, i: int, j: int|
                    0 <= s2 < s && 0 <= i < catalog(all_move_sets()[s2]).len()
                        && catalog(all_move_sets()[s2])[i].can_capture ==> !#[trigger] self.attack_at(
                        from,
                        to,
                        piece_move,
                        king,
                        all_move_sets()[s2],
                        catalog(all_move_sets()[s2])[i],
                        j,
                    ),
            decreases sets.len() - s,
        {
            let set = sets[s];
            let moves = move_catalog(set);
            let mut i: usize = 0;
            while i < moves.len()
                invariant
                    self.wf(),
                    sets@ == all_move_sets(),
                    s < sets@.len(),
                    set == all_move_sets()[s as int],
                    moves@ == catalog(set),
                    i <= moves@.len(),
                    landing == Self::hypothetical_landing(from, to, piece_move),
                    carried == Self::hypothetical_carried(from, piece_move),
                    king == self.king_square_after(from, to, piece_move),
                    forall|s2: int, i2: int, j: int|
                        0 <= s2 < s && 0 <= i2 < catalog(all_move_sets()[s2]).len()
                            && catalog(all_move_sets()[s2])[i2].can_capture ==> !#[trigger] self.attack_at(
                            from,
                            to,
                            piece_move,
                            king,
                            all_move_sets()[s2],
                            catalog(all_move_sets()[s2])[i2],
                            j,
                        ),
                    forall|i2: int, j: int|
                        0 <= i2 < i && catalog(set)[i2].can_capture ==> !#[trigger] self.attack_at(
                            from,
                            to,
                            piece_move,
                            king,
                            set,
                            catalog(set)[i2],
                            j,
                        ),
                decreases moves.len() - i,
            {
                let t = moves[i];
                if t.can_capture {
                    proof {
                        lemma_catalog_moves_somewhere(set, i as int);
                    }
                    if self.attacked_along(from, to, piece_move, landing, carried, king, set, t) {
                        proof {
                            let j = choose|j: int| self.attack_at(from, to, piece_move, king, set, t, j);
                            assert(self.attack_at(from, to, piece_move, king, all_move_sets()[s as int], catalog(all_move_sets()[s as int])[i as int], j));
                        }
                        return true;
                    }
                }
                i += 1;
            }
            s += 1;
        }
        proof {
            assert forall|s2: int, i: int, j: int|
                0 <= s2 < all_move_sets().len() && 0 <= i < catalog(all_move_sets()[s2]).len()
                    && catalog(all_move_sets()[s2])[i].can_capture implies !#[trigger] self.attack_at(
                    from,
                    to,
                    piece_move,
                    self.king_square_after(from, to, piece_move),
                    all_move_sets()[s2],
                    catalog(all_move_sets()[s2])[i],
                    j,
                ) by {}
        }
        false
    }

    /// Whether the king of the side to move is attacked now.
    pub fn king_is_in_check(&self) -> (r: bool)
        requires
            self.wf(),
        ensures
            r == self.spec_in_check(),
    {
        self.king_is_in_check_with_move([0, 0], [0, 0], None)
    }
}

/// The smaller of `a` and `b`.
pub open spec fn min_of(a: int, b: int) -> int {
    if a < b {
        a
    } else {
        b
    }
}

/// The larger of `a` and `b`.
pub open spec fn max_of(a: int, b: int) -> int {
    if a > b {
        a
    } else {
        b
    }
}

fn min_i128(a: i128, b: i128) -> (r: i128)
    ensures
        r == min_of(a as int, b as int),
{
    if a < b {
        a
    } else {
        b
    }
}

fn max_i128(a: i128, b: i128) -> (r: i128)
    ensures
        r == max_of(a as int, b as int),
{
    if a > b {
        a
    } else {
        b
    }
}

impl ChessBoard {
    /// Whether the stored window, stretched to take in ranks `a` to `d`, still fits `isize`.
    pub open spec fn window_fits(&self, a: int, b: int, c: int, d: int) -> bool {
        let low = min_of(min_of(min_of(self.spec_first_rank(), a), min_of(b, c)), d);
        let high = max_of(max_of(max_of(self.spec_last_rank(), a), max_of(b, c)), d);
        high - low + 1 <= isize::MAX
    }

    /// Whether every rank that move `m` from `from` to `to` writes can be stored.
    pub open spec fn move_fits(&self, from: [isize; 2], to: [isize; 2], m: PieceMove) -> bool {
        let landing = Self::hypothetical_landing(from, to, Some(m));
        let carried = match m.spec_carried_to(from) {
            Some(c) => c[0] as int,
            None => from[0] as int,
        };
        self.window_fits(from[0] as int, to[0] as int, landing[0] as int, carried)
    }

    /// Whether `move_piece(from, to)` is carried out: ordinary moves are being taken, the side
    /// to move owns the piece on `from`, its catalog allows the move, the move leaves its king
    /// unattacked, a move that is not allowed in check is not made in check, a piece to carry
    /// is there, and the board can store what is written.
    pub open spec fn move_accepted(&self, from: [isize; 2], to: [isize; 2]) -> bool {
        &&& self.selection_mode == SelectionMode::MovePiece
        &&& self.spec_get_piece(from) matches Some(Some(p)) && p.team == self.turn
        &&& self.spec_check_move(from, to) matches Some(m) && {
            &&& !self.in_check_after(from, to, Some(m))
            &&& m.allowed_in_check || !self.spec_in_check()
            &&& self.move_fits(from, to, m)
            &&& m.captured_piece_offset.is_some() ==> (self.spec_get_piece(to) matches Some(Some(_)))
        }
    }

    /// The lowest rank stored once move `m` from `from` to `to` is written: the rank of each
    /// square written is stored.
    pub open spec fn low_after(&self, from: [isize; 2], to: [isize; 2], m: PieceMove) -> int {
        let landing = Self::hypothetical_landing(from, to, Some(m));
        let removed = if m.forced_motion_offset.is_some() { to[0] as int } else { from[0] as int };
        let carried = match m.spec_carried_to(from) {
            Some(c) => c[0] as int,
            None => from[0] as int,
        };
        min_of(min_of(min_of(self.spec_first_rank(), from[0] as int), min_of(removed, landing[0] as int)), carried)
    }

    /// The highest rank stored once move `m` from `from` to `to` is written.
    pub open spec fn high_after(&self, from: [isize; 2], to: [isize; 2], m: PieceMove) -> int {
        let landing = Self::hypothetical_landing(from, to, Some(m));
        let removed = if m.forced_motion_offset.is_some() { to[0] as int } else { from[0] as int };
        let carried = match m.spec_carried_to(from) {
            Some(c) => c[0] as int,
            None => from[0] as int,
        };
        max_of(max_of(max_of(self.spec_last_rank(), from[0] as int), max_of(removed, landing[0] as int)), carried)
    }

    /// What square (`r`, `f`) holds once the piece on `from` has made move `m` to `to` and the
    /// stored ranks reach from `low` to `high`: the carried piece moves to its square, a forced
    /// landing empties `to`, the mover lands, and `from` is emptied; moved pieces count one
    /// more move; ranks stored anew are otherwise empty.
    pub open spec fn square_once_moved(
        &self,
        from: [isize; 2],
        to: [isize; 2],
        m: PieceMove,
        low: int,
        high: int,
        r: int,
        f: int,
    ) -> Option<ChessPiece> {
        let p = self.square(from[0] as int, from[1] as int).unwrap();
        let landing = Self::hypothetical_landing(from, to, Some(m));
        if r == from[0] && f == from[1] {
            None
        } else if r == landing[0] && f == landing[1] {
            Some(p.spec_moved())
        } else if m.forced_motion_offset.is_some() && r == to[0] && f == to[1] {
            None
        } else if m.spec_carried_to(from) matches Some(c) && r == c[0] && f == c[1] {
            Some(self.square(to[0] as int, to[1] as int).unwrap().spec_moved())
        } else {
            self.square_stretched(low, high, r, f)
        }
    }

    fn window_fits_exec(&self, a: isize, b: isize, c: isize, d: isize) -> (r: bool)
        requires
            self.wf(),
        ensures
            r == self.window_fits(a as int, b as int, c as int, d as int),
    {
        let first = self.first_rank() as i128;
        let last = self.last_rank() as i128;
        let low = min_i128(min_i128(min_i128(first, a as i128), min_i128(b as i128, c as i128)), d as i128);
        let high = max_i128(max_i128(max_i128(last, a as i128), max_i128(b as i128, c as i128)), d as i128);
        high - low + 1 <= isize::MAX as i128
    }

    /// The move that `move_piece(from, to)` would make, if it is accepted.
    fn accepted_move(&self, from: [isize; 2], to: [isize; 2]) -> (r: Option<PieceMove>)
        requires
            self.wf(),
        ensures
            r.is_some() == self.move_accepted(from, to),
            r matches Some(m) ==> self.spec_check_move(from, to) == Some(m) && self.commit_ready(
                from,
                to,
                m,
            ),
    {
        if let SelectionMode::PromotePiece(_) = self.selection_mode {
            return None;
        }
        let starting_piece = match self.get_piece(from) {
            Some(Some(p)) => p,
            _ => return None,
        };
        if starting_piece.team != self.turn {
            return None;
        }
        let piece_move = match self.check_move(from, to) {
            Some(m) => m,
            None => return None,
        };
        if self.king_is_in_check_with_move(from, to, Some(piece_move)) {
            return None;
        }
        if !piece_move.allowed_in_check && self.king_is_in_check() {
            return None;
        }
        let landing = match piece_move.apply_additional_motion_offset_to_move(from, to) {
            Some(d) => d,
            None => return None,
        };
        let carried = piece_move.apply_captured_piece_offset_to_origin(from);
        let carried_rank = match carried {
            Some(c) => {
                match self.get_piece(to) {
                    Some(Some(_)) => {},
                    _ => return None,
                }
                c[0]
            },
            None => from[0],
        };
        if !self.window_fits_exec(from[0], to[0], landing[0], carried_rank) {
            return None;
        }
        Some(piece_move)
    }

    /// Whether `next` is this board once the accepted move from `from` to `to` is made, with
    /// `passed` telling whether the turn passed: the squares change as `square_once_moved`
    /// says, the stored ranks reach exactly the ranks written, a moving king's tracked position follows it, the
    /// opportunity square is the landing of a move that provokes one and is cleared otherwise,
    /// and a pawn landing on its side's last rank awaits promotion instead of passing the turn.
    pub open spec fn made_move(&self, next: &ChessBoard, from: [isize; 2], to: [isize; 2], passed: bool) -> bool {
        let m = self.spec_check_move(from, to).unwrap();
        let p = self.square(from[0] as int, from[1] as int).unwrap();
        let landing = Self::hypothetical_landing(from, to, Some(m));
        &&& next.wf()
        &&& next.spec_first_rank() == self.low_after(from, to, m)
        &&& next.spec_last_rank() == self.high_after(from, to, m)
        &&& forall|x: int, f: int|
            file_in_range(f) ==> #[trigger] next.square(x, f) == self.square_once_moved(
                from,
                to,
                m,
                next.spec_first_rank(),
                next.spec_last_rank(),
                x,
                f,
            )
        &&& next.king_positions@ == if p.kind == PieceKind::King {
            self.king_positions@.update(team_index(self.turn), landing)
        } else {
            self.king_positions@
        }
        &&& next.opportunity_location == if m.provokes_opportunity {
            Some(landing)
        } else {
            None
        }
        &&& if p.spec_upgrade_rank() == Some(landing[0] as int) {
            &&& !passed
            &&& next.selection_mode == SelectionMode::PromotePiece(landing)
            &&& next.turn == self.turn
        } else {
            &&& passed
            &&& next.selection_mode == SelectionMode::MovePiece
            &&& next.turn == self.turn.spec_opposite()
        }
    }

    /// What committing move `m` from `from` to `to` needs: a piece on `from`, squares on the
    /// files for everything written, a piece to carry where the move carries one, and room to
    /// store the ranks written.
    pub open spec fn commit_ready(&self, from: [isize; 2], to: [isize; 2], m: PieceMove) -> bool {
        &&& self.spec_get_piece(from) matches Some(Some(_))
        &&& file_in_range(to[1] as int)
        &&& m.spec_landing(from, to) matches Some(d) && file_in_range(d[1] as int)
        &&& m.captured_piece_offset.is_some() ==> m.spec_carried_to(from).is_some()
        &&& self.move_fits(from, to, m)
        &&& m.spec_carried_to(from) matches Some(c) ==> (file_in_range(c[1] as int)
            && self.spec_get_piece(to) matches Some(Some(_)))
    }

    /// Writes the squares that move `m` from `from` to `to` changes.
    fn place_pieces(
        &mut self,
        from: [isize; 2],
        to: [isize; 2],
        m: PieceMove,
        landing: [isize; 2],
        carried: Option<[isize; 2]>,
        carried_piece: Option<ChessPiece>,
        mover: ChessPiece,
    )
        requires
            old(self).wf(),
            old(self).commit_ready(from, to, m),
            landing == Self::hypothetical_landing(from, to, Some(m)),
            carried == m.spec_carried_to(from),
            carried.is_some() ==> old(self).spec_get_piece(to) == Some(carried_piece),
            old(self).spec_get_piece(from) == Some(Some(mover)),
        ensures
            final(self).wf(),
            final(self).spec_first_rank() == old(self).low_after(from, to, m),
            final(self).spec_last_rank() == old(self).high_after(from, to, m),
            forall|x: int, f: int|
                file_in_range(f) ==> #[trigger] final(self).square(x, f)
                    == old(self).square_once_moved(
                    from,
                    to,
                    m,
                    final(self).spec_first_rank(),
                    final(self).spec_last_rank(),
                    x,
                    f,
                ),
            final(self).turn == old(self).turn,
            final(self).king_positions == old(self).king_positions,
            final(self).opportunity_location == old(self).opportunity_location,
            final(self).selection_mode == old(self).selection_mode,
    {
        let ghost b0 = *self;
        if let (Some(c), Some(q)) = (carried, carried_piece) {
            self.set_square(c, Some(q.moved()));
        }
        let ghost b1 = *self;
        assert(forall|x: int, f: int| file_in_range(f) ==> #[trigger] b1.square(x, f) == if carried matches Some(c) && x == c[0] && f == c[1] {
            Some(b0.square(to[0] as int, to[1] as int).unwrap().spec_moved())
        } else {
            b0.square_stretched(b1.spec_first_rank(), b1.spec_last_rank(), x, f)
        });
        if m.forced_motion_offset.is_some() {
            self.set_square(to, None);
        }
        let ghost b2 = *self;
        assert(forall|x: int, f: int| file_in_range(f) ==> #[trigger] b2.square(x, f) == if m.forced_motion_offset.is_some() && x == to[0] && f == to[1] {
            None
        } else {
            b1.square_stretched(b2.spec_first_rank(), b2.spec_last_rank(), x, f)
        });
        self.set_square(landing, Some(mover.moved()));
        let ghost b3 = *self;
        self.set_square(from, None);
        let ghost lo = self.spec_first_rank();
        let ghost hi = self.spec_last_rank();
        assert(lo == b0.low_after(from, to, m));
        assert(hi == b0.high_after(from, to, m));
        assert forall|x: int, f: int| file_in_range(f) implies #[trigger] self.square(x, f)
            == b0.square_once_moved(from, to, m, lo, hi, x, f) by {
            assert(self.square(x, f) == if x == from[0] && f == from[1] {
                None
            } else {
                b3.square_stretched(lo, hi, x, f)
            });
            assert(b3.square(x, f) == if x == landing[0] && f == landing[1] {
                Some(mover.spec_moved())
            } else {
                b2.square_stretched(b3.spec_first_rank(), b3.spec_last_rank(), x, f)
            });
            assert(b2.square(x, f) == if m.forced_motion_offset.is_some() && x == to[0] && f == to[1] {
                None
            } else {
                b1.square_stretched(b2.spec_first_rank(), b2.spec_last_rank(), x, f)
            });
            assert(b1.square(x, f) == if carried matches Some(c) && x == c[0] && f == c[1] {
                Some(b0.square(to[0] as int, to[1] as int).unwrap().spec_moved())
            } else {
                b0.square_stretched(b1.spec_first_rank(), b1.spec_last_rank(), x, f)
            });
        }
    }

    /// Carries out move `m` from `from` to `to`.
    fn commit_move(&mut self, from: [isize; 2], to: [isize; 2], m: PieceMove) -> (r: bool)
        requires
            old(self).wf(),
            old(self).commit_ready(from, to, m),
            old(self).spec_check_move(from, to) == Some(m),
            old(self).selection_mode == SelectionMode::MovePiece,
        ensures
            old(self).made_move(final(self), from, to, r),
    {
        let starting_piece = match self.get_piece(from) {
            Some(Some(p)) => p,
            _ => {
                assert(false);
                return true;
            },
        };
        let landing = match m.apply_additional_motion_offset_to_move(from, to) {
            Some(d) => d,
            None => {
                assert(false);
                return true;
            },
        };
        let carried = m.apply_captured_piece_offset_to_origin(from);
        let carried_piece = match carried {
            Some(_) => match self.get_piece(to) {
                Some(Some(q)) => Some(q),
                _ => {
                    assert(false);
                    return true;
                },
            },
            None => None,
        };
        self.place_pieces(from, to, m, landing, carried, carried_piece, starting_piece);
        let ghost placed = *self;
        if starting_piece.kind == PieceKind::King {
            *self.get_king_position_mut() = landing;
        }
        assert(self.ranks == placed.ranks);
        assert(self.ranks_behind_white == placed.ranks_behind_white);
        self.opportunity_location = if m.provokes_opportunity {
            Some(landing)
        } else {
            None
        };
        let promotes = match starting_piece.upgrade_rank() {
            Some(rank) => rank == landing[0],
            None => false,
        };
        assert(promotes == (starting_piece.spec_upgrade_rank() == Some(landing[0] as int)));
        if promotes {
            self.selection_mode = SelectionMode::PromotePiece(landing);
        } else {
            self.turn = self.turn.opposite();
        }
        assert(self.ranks == placed.ranks);
        assert forall|x: int, f: int| file_in_range(f) implies #[trigger] self.square(x, f)
            == old(self).square_once_moved(from, to, m, self.spec_first_rank(), self.spec_last_rank(), x, f) by {
            assert(placed.square(x, f) == old(self).square_once_moved(from, to, m, placed.spec_first_rank(), placed.spec_last_rank(), x, f));
        }
        !promotes
    }

    /// Makes the move from `from` to `to` for the side to move when `move_accepted` holds, and
    /// returns whether the turn passed (`Some(true)`) or a promotion is now awaited
    /// (`Some(false)`). Otherwise returns `None` and leaves the board as it was.
    pub fn move_piece(&mut self, from: [isize; 2], to: [isize; 2]) -> (r: Option<bool>)
        requires
            old(self).wf(),
        ensures
            final(self).wf(),
            r.is_some() == old(self).move_accepted(from, to),
            r.is_none() ==> *final(self) == *old(self),
            r matches Some(passed) ==> old(self).made_move(final(self), from, to, passed),
    {
        match self.accepted_move(from, to) {
            Some(m) => Some(self.commit_move(from, to, m)),
            None => None,
        }
    }
}

impl ChessBoard {
    /// Whether `select_promotion(index)` is carried out: a promotion is awaited, the awaiting
    /// square is stored and holds a piece that can be promoted, and `index` names one of its
    /// promotion kinds.
    pub open spec fn promotion_accepted(&self, index: usize) -> bool {
        &&& self.selection_mode matches SelectionMode::PromotePiece(loc)
        &&& self.spec_first_rank() <= loc[0] <= self.spec_last_rank()
        &&& self.square(loc[0] as int, loc[1] as int) matches Some(p)
        &&& p.spec_upgrade_kinds() matches Some(kinds)
        &&& index < kinds.len()
    }

    /// Promotes the awaiting piece to kind `index` of its promotion kinds (queen, rook, bishop,
    /// knight), passes the turn and takes ordinary moves again. When `promotion_accepted` does
    /// not hold, returns `None` and leaves the board as it was.
    pub fn select_promotion(&mut self, index: usize) -> (r: Option<()>)
        requires
            old(self).wf(),
        ensures
            final(self).wf(),
            r.is_some() == old(self).promotion_accepted(index),
            r.is_none() ==> *final(self) == *old(self),
            r.is_some() ==> ({
                let loc = old(self).selection_mode->PromotePiece_0;
                let p = old(self).square(loc[0] as int, loc[1] as int).unwrap();
                let kind = p.spec_upgrade_kinds().unwrap()[index as int];
                &&& forall|x: int, f: int|
                    file_in_range(f) ==> #[trigger] final(self).square(x, f) == if x == loc[0] && f
                        == loc[1] {
                        Some(ChessPiece { kind, ..p })
                    } else {
                        old(self).square(x, f)
                    }
                &&& final(self).ranks@.len() == old(self).ranks@.len()
                &&& final(self).ranks_behind_white == old(self).ranks_behind_white
                &&& final(self).turn == old(self).turn.spec_opposite()
                &&& final(self).selection_mode == SelectionMode::MovePiece
                &&& final(self).king_positions == old(self).king_positions
                &&& final(self).opportunity_location == old(self).opportunity_location
            }),
    {
        let location = match self.selection_mode {
            SelectionMode::PromotePiece(location) => location,
            SelectionMode::MovePiece => return None,
        };
        if location[0] < self.first_rank() || location[0] > self.last_rank() {
            return None;
        }
        let selected_piece = match self.get_piece(location) {
            Some(Some(p)) => p,
            _ => return None,
        };
        let upgrade_kinds = match selected_piece.upgrade_kinds() {
            Some(kinds) => kinds,
            None => return None,
        };
        if index >= upgrade_kinds.len() {
            return None;
        }
        let promoted = ChessPiece { kind: upgrade_kinds[index], ..selected_piece };
        match self.get_piece_mut(location) {
            Some(cell) => {
                *cell = Some(promoted);
            },
            None => {
                assert(false);
            },
        }
        let ghost written = *self;
        assert(forall|x: int, f: int|
            file_in_range(f) ==> #[trigger] written.square(x, f) == if x == location[0] && f
                == location[1] {
                Some(promoted)
            } else {
                old(self).square(x, f)
            });
        self.turn = self.turn.opposite();
        self.selection_mode = SelectionMode::MovePiece;
        assert forall|x: int, f: int| file_in_range(f) implies #[trigger] self.square(x, f) == written.square(x, f) by {}
        Some(())
    }
}

/// A move checked by `check_move` never stays in place, and takes an ally only to castle with a
/// rook.
proof fn lemma_checked_move_shape(board: ChessBoard, from: [isize; 2], to: [isize; 2])
    requires
        board.spec_check_move(from, to) is Some,
    ensures
        from != to,
        ({
            let m = board.spec_check_move(from, to).unwrap();
            m.can_capture_ally ==> m.forced_capture_kind == Some(PieceKind::Rook)
        }),
{
    let p = board.square(from[0] as int, from[1] as int).unwrap();
    let cat = catalog(p.spec_move_set());
    let dr = to[0] - from[0];
    let df = to[1] - from[1];
    let i = choose|i: int| is_first_match(cat, dr, df, i);
    lemma_catalog_moves_somewhere(p.spec_move_set(), i);
    let m = cat[i];
    if from == to {
        if m.repeating {
            let k = choose|k: int|
                k >= 1 && dr == #[trigger] scaled(k, m.offset[0] as int) && df == scaled(
                    k,
                    m.offset[1] as int,
                );
            if m.offset[0] != 0 {
                assert(scaled(k, m.offset[0] as int) != 0) by (nonlinear_arith)
                    requires k >= 1, m.offset[0] != 0;
            } else {
                assert(scaled(k, m.offset[1] as int) != 0) by (nonlinear_arith)
                    requires k >= 1, m.offset[1] != 0;
            }
        }
    }
}

/// Tracked kings stay tracked: when each side's tracked position holds its king, an accepted
/// move whose target square is not the other side's king leaves each side's tracked position
/// on its king. (A forced landing is always empty, so it never falls on a king.)
pub proof fn lemma_move_keeps_kings_tracked(
    before: ChessBoard,
    after: ChessBoard,
    from: [isize; 2],
    to: [isize; 2],
    passed: bool,
)
    requires
        before.wf(),
        before.tracks_king(PieceTeam::Black),
        before.tracks_king(PieceTeam::White),
        before.move_accepted(from, to),
        before.made_move(&after, from, to, passed),
        to != before.king_positions[team_index(before.turn.spec_opposite())],
    ensures
        after.tracks_king(PieceTeam::Black),
        after.tracks_king(PieceTeam::White),
{
    lemma_checked_move_shape(before, from, to);
    let m = before.spec_check_move(from, to).unwrap();
    let p = before.square(from[0] as int, from[1] as int).unwrap();
    let landing = ChessBoard::hypothetical_landing(from, to, Some(m));
    let own = before.turn;
    let other = before.turn.spec_opposite();
    let ko = before.king_positions[team_index(own)];
    let kx = before.king_positions[team_index(other)];
    // the other side's king is untouched
    assert(kx != from);
    assert(!(kx[0] == to[0] && kx[1] == to[1])) by {
        if kx[0] == to[0] && kx[1] == to[1] {
            assert(kx =~= to);
        }
    }
    assert(!(kx[0] == landing[0] && kx[1] == landing[1])) by {
        if kx[0] == landing[0] && kx[1] == landing[1] {
            assert(kx =~= landing);
            // a forced landing is empty, and any other landing is `to`
            if m.forced_motion_offset.is_some() {
                assert(before.spec_get_piece(landing) == Some(None::<ChessPiece>));
            }
        }
    }
    if let Some(c) = m.spec_carried_to(from) {
        assert(before.spec_get_piece(c) == Some(None::<ChessPiece>));
    }
    assert(after.king_positions[team_index(other)] == kx);
    assert(after.square(kx[0] as int, kx[1] as int) == before.square(kx[0] as int, kx[1] as int));
    if p.kind == PieceKind::King {
        assert(landing != from);
        assert(after.king_positions[team_index(own)] == landing);
        assert(after.square(landing[0] as int, landing[1] as int) == Some(p.spec_moved()));
    } else {
        assert(ko != from);
        assert(after.king_positions[team_index(own)] == ko);
        assert(ko != landing);
        assert(after.square(ko[0] as int, ko[1] as int) == before.square(ko[0] as int, ko[1] as int));
    }
    if own == PieceTeam::Black {
        assert(after.tracks_king(PieceTeam::Black));
        assert(after.tracks_king(PieceTeam::White));
    } else {
        assert(after.tracks_king(PieceTeam::Black));
        assert(after.tracks_king(PieceTeam::White));
    }
}

} // verus!
