use vstd::prelude::*;

use crate::board::{Board, Colour, Field, Piece, lemma_board_len, start_board};
use crate::location::{Coords, File, Rank, square_of_index};
use crate::rules::{
    CastlesAllowed, Position, Success, abs, apply_move, attacked, board_after, board_after_capture,
    castle_rook_from, castle_rook_to, castling_after, in_check, attacks, controlled, is_en_passant, king_from,
    king_square, move_accepted, placed, pseudo_legal, ray_square, sgn, slides, taken,
};

verus! {

broadcast use lemma_board_len;

/// A position: the board, whose turn it is, the castling rights and the en-passant target.
#[derive(Debug, Clone, Copy, Eq, Hash)]
pub struct BoardState {
    pub board: Board,
    pub side_to_move: Colour,
    pub black_castling: CastlesAllowed,
    pub white_castling: CastlesAllowed,
    pub en_passant_target: Option<Coords>,
}

impl View for BoardState {
    type V = Position;

    open spec fn view(&self) -> Position {
        Position {
            board: self.board@,
            side_to_move: self.side_to_move,
            white_castling: self.white_castling,
            black_castling: self.black_castling,
            en_passant_target: self.en_passant_target,
        }
    }
}

impl PartialEq for BoardState {
    fn eq(&self, o: &BoardState) -> (r: bool)
        ensures
            r == (self@ == o@),
    {
        self.board == o.board && self.side_to_move == o.side_to_move && self.black_castling
            == o.black_castling && self.white_castling == o.white_castling
            && self.en_passant_target == o.en_passant_target
    }
}

impl vstd::std_specs::cmp::PartialEqSpecImpl for BoardState {
    open spec fn obeys_eq_spec() -> bool {
        true
    }

    open spec fn eq_spec(&self, o: &BoardState) -> bool {
        self@ == o@
    }
}

/// The starting position.
pub open spec fn start_position() -> Position {
    Position {
        board: start_board(),
        side_to_move: Colour::White,
        white_castling: CastlesAllowed { short: true, long: true },
        black_castling: CastlesAllowed { short: true, long: true },
        en_passant_target: None,
    }
}

impl Default for BoardState {
    fn default() -> (r: BoardState)
        ensures
            r@ == start_position(),
    {
        BoardState::new()
    }
}

impl BoardState {
    /// The starting position.
    pub fn new() -> (r: BoardState)
        ensures
            r@ == start_position(),
    {
        BoardState {
            board: Board::start(),
            side_to_move: Colour::White,
            black_castling: CastlesAllowed { short: true, long: true },
            white_castling: CastlesAllowed { short: true, long: true },
            en_passant_target: None,
        }
    }

    pub fn get(&self, coords: Coords) -> (r: Field)
        ensures
            r == self@.at(coords),
    {
        self.board.get(coords)
    }

    fn castling(&self, c: Colour) -> (r: CastlesAllowed)
        ensures
            r == self@.castling(c),
    {
        match c {
            Colour::White => self.white_castling,
            Colour::Black => self.black_castling,
        }
    }

    /// Whether `from` and `unto` share a diagonal (where `diag`) or a file or rank (where
    /// `straight`), with every square strictly between them empty.
    fn check_along(&self, from: Coords, unto: Coords, diag: bool, straight: bool) -> (r: bool)
        ensures
            r == slides(self@, from, unto, diag, straight),
    {
        let (dl, dn) = unto.sub(from);
        let al: i8 = if dl < 0 { -dl } else { dl };
        let an: i8 = if dn < 0 { -dn } else { dn };
        let distance: i8 = if al > an { al } else { an };
        if (diag && al == an) || (straight && (al == 0 || an == 0)) {
            let sl: i8 = if dl > 0 { 1 } else if dl < 0 { -1 } else { 0 };
            let sn: i8 = if dn > 0 { 1 } else if dn < 0 { -1 } else { 0 };
            let (l, n) = from.i8_tuple();
            let mut i: i8 = 1;
            while i < distance
                invariant
                    1 <= i <= 8,
                    distance == vstd::math::max(abs(dl as int), abs(dn as int)),
                    0 <= distance < 8,
                    dl == unto.file.idx() - from.file.idx(),
                    dn == unto.rank.idx() - from.rank.idx(),
                    sl == sgn(dl as int),
                    sn == sgn(dn as int),
                    l == from.file.idx(),
                    n == from.rank.idx(),
                    (diag && al == an) || (straight && (al == 0 || an == 0)),
                    forall|j: int|
                        1 <= j < i ==> (#[trigger] self@.at(ray_square(from, unto, j))) is Empty,
                decreases distance - i,
            {
                let fl: i8 = if sl > 0 { l + i } else if sl < 0 { l - i } else { l };
                let fn_: i8 = if sn > 0 { n + i } else if sn < 0 { n - i } else { n };
                match Coords::from_u8_tuple(fl, fn_) {
                    Some(c) => {
                        assert(c == ray_square(from, unto, i as int));
                        if !self.board.get(c).is_empty() {
                            assert(!(self@.at(ray_square(from, unto, i as int)) is Empty));
                            return false;
                        }
                    },
                    None => {
                        return false;
                    },
                }
                i = i + 1;
            }
            true
        } else {
            false
        }
    }

    /// Determines if the movement is legal except for whether king is in check after.
    pub fn is_pseudo_legal(&self, colour_to_move: Colour, from: Coords, unto: Coords) -> (r: bool)
        ensures
            r == pseudo_legal(self@, colour_to_move, from, unto),
    {
        if from == unto {
            return false;
        }
        let mover = match self.board.get(from) {
            Field::Empty => return false,
            Field::Occupied(c, p) => {
                if c != colour_to_move {
                    return false;
                }
                p
            },
        };
        let taking = match self.board.get(unto) {
            Field::Occupied(c, _) => {
                if c == colour_to_move {
                    return false;
                }
                true
            },
            Field::Empty => false,
        };
        match mover {
            Piece::Pawn => {
                let sign: i8 = match colour_to_move {
                    Colour::Black => -1,
                    Colour::White => 1,
                };
                let d_num: i8 = if sign > 0 {
                    unto.r().i8() - from.r().i8()
                } else {
                    from.r().i8() - unto.r().i8()
                };
                let taking = taking || self.en_passant_target == Some(unto);
                if (from.f() != unto.f()) != taking {
                    return false;
                }
                if taking {
                    let df = unto.f().i8() - from.f().i8();
                    d_num == 1 && (df == 1 || df == -1)
                } else {
                    if d_num == 1 {
                        true
                    } else if d_num == 2 && 2 * from.r().i8() + 5 * sign == 7 {
                        match from.add(0, sign) {
                            Some(c) => self.board.get(c).is_empty(),
                            None => false,
                        }
                    } else {
                        false
                    }
                }
            },
            Piece::Knight => {
                let (l, n) = unto.sub(from);
                let l: i8 = if l < 0 { -l } else { l };
                let n: i8 = if n < 0 { -n } else { n };
                (l == 2 && n == 1) || (l == 1 && n == 2)
            },
            Piece::Bishop => self.check_along(from, unto, true, false),
            Piece::Queen => self.check_along(from, unto, true, true),
            Piece::Rook => self.check_along(from, unto, false, true),
            Piece::King => {
                let (dl, dn) = unto.sub(from);
                let al: i8 = if dl < 0 { -dl } else { dl };
                let an: i8 = if dn < 0 { -dn } else { dn };
                if al <= 1 && an <= 1 {
                    true
                } else if dn == 0 {
                    let ac = self.castling(colour_to_move);
                    if taking {
                        false
                    } else if ac.short && dl == 2 {
                        match from.add(1, 0) {
                            Some(c) => self.board.get(c).is_empty(),
                            None => false,
                        }
                    } else if ac.long && dl == -2 {
                        match from.add(-1, 0) {
                            Some(c) => self.board.get(c).is_empty(),
                            None => false,
                        }
                    } else {
                        false
                    }
                } else {
                    false
                }
            },
        }
    }

    /// The square of `c`'s king: the first in raster order.
    fn find_king(&self, c: Colour) -> (r: Option<Coords>)
        ensures
            r == king_square(self@, c),
    {
        let mut i: u8 = 0;
        while i < 64
            invariant
                0 <= i <= 64,
                king_from(self@, c, 0) == king_from(self@, c, i as int),
            decreases 64 - i,
        {
            let cs = Coords::from_index(i);
            match self.board.get(cs) {
                Field::Occupied(pc, Piece::King) => {
                    if pc == c {
                        return Some(cs);
                    }
                },
                _ => {},
            }
            i = i + 1;
        }
        None
    }

    /// Whether some piece of `by_side` may move to `spot`.
    fn is_threatened(&self, spot: Coords, by_side: Colour) -> (r: bool)
        ensures
            r == attacked(self@, spot, by_side),
    {
        let mut i: u8 = 0;
        while i < 64
            invariant
                0 <= i <= 64,
                forall|j: int| 0 <= j < i ==> !pseudo_legal(self@, by_side, square_of_index(j), spot),
            decreases 64 - i,
        {
            let cs = Coords::from_index(i);
            if self.is_pseudo_legal(by_side, cs, spot) {
                return true;
            }
            i = i + 1;
        }
        assert forall|c: Coords| !pseudo_legal(self@, by_side, c, spot) by {
            c.lemma_idx();
        }
        false
    }

    /// Whether the piece of `by` on `from` attacks `spot` (see `attacks`).
    fn attacks_from(&self, by: Colour, from: Coords, spot: Coords) -> (r: bool)
        ensures
            r == attacks(self@, by, from, spot),
    {
        if from == spot {
            return false;
        }
        let (dl, dn) = spot.sub(from);
        match self.board.get(from) {
            Field::Empty => false,
            Field::Occupied(c, piece) => {
                if c != by {
                    return false;
                }
                match piece {
                    Piece::Pawn => {
                        let f: i8 = match by {
                            Colour::White => 1,
                            Colour::Black => -1,
                        };
                        dn == f && (dl == 1 || dl == -1)
                    },
                    Piece::Knight => {
                        let l: i8 = if dl < 0 { -dl } else { dl };
                        let n: i8 = if dn < 0 { -dn } else { dn };
                        (l == 2 && n == 1) || (l == 1 && n == 2)
                    },
                    Piece::Bishop => self.check_along(from, spot, true, false),
                    Piece::Rook => self.check_along(from, spot, false, true),
                    Piece::Queen => self.check_along(from, spot, true, true),
                    Piece::King => -1 <= dl && dl <= 1 && -1 <= dn && dn <= 1,
                }
            },
        }
    }

    /// Whether some piece of `by` attacks `spot`.
    #[verifier::rlimit(40)]
    fn is_controlled(&self, spot: Coords, by: Colour) -> (r: bool)
        ensures
            r == controlled(self@, spot, by),
    {
        let mut i: u8 = 0;
        while i < 64
            invariant
                0 <= i <= 64,
                forall|j: int| 0 <= j < i ==> !attacks(self@, by, square_of_index(j), spot),
            decreases 64 - i,
        {
            let cs = Coords::from_index(i);
            if self.attacks_from(by, cs, spot) {
                return true;
            }
            i = i + 1;
        }
        assert forall|c: Coords| !attacks(self@, by, c, spot) by {
            c.lemma_idx();
        }
        false
    }

    /// Whether the king of `side` is attacked. A side without a king is never in check.
    pub fn in_check(&self, side: Colour) -> (r: bool)
        ensures
            r == in_check(self@, side),
    {
        match self.find_king(side) {
            Some(king) => self.is_threatened(king, side.other()),
            None => false,
        }
    }

    /// Plays a move of the side to move. A pawn that reaches a back rank names the piece it
    /// becomes in `promotion`; no other move names one. A refused move changes nothing.
    pub fn make_move(&mut self, from: Coords, unto: Coords, promotion: Option<Piece>) -> (r: Result<Success, ()>)
        ensures
            match apply_move(old(self)@, from, unto, promotion) {
                Some((q, s)) => r == Ok::<Success, ()>(s) && final(self)@ == q,
                None => r is Err && *final(self) == *old(self),
            },
    {
        let ghost p = self@;
        if !self.is_pseudo_legal(self.side_to_move, from, unto) {
            return Err(());
        }
        let mover = self.board.get(from);
        let is_pawn = match mover {
            Field::Occupied(_, Piece::Pawn) => true,
            _ => false,
        };
        let is_king = match mover {
            Field::Occupied(_, Piece::King) => true,
            _ => false,
        };
        let back = unto.r() == Rank::N1 || unto.r() == Rank::N8;
        let legal_promotion = if is_pawn {
            match promotion {
                None => !back,
                Some(Piece::King) => false,
                Some(Piece::Pawn) => false,
                Some(_) => back,
            }
        } else {
            promotion.is_none()
        };
        if !legal_promotion {
            return Err(());
        }
        let (dl, dn) = unto.sub(from);
        if (dl == 2 || dl == -2) && is_king {
            if self.in_check(self.side_to_move) {
                return Err(());
            }
            let pass = from.add(dl / 2, 0);
            assert(pass is Some);
            if self.is_controlled(pass.unwrap(), self.side_to_move.other()) {
                return Err(());
            }
        }
        assert(move_accepted(p, from, unto, promotion));
        let ep = is_pawn && self.en_passant_target == Some(unto);
        assert(ep == is_en_passant(p, from, unto));
        let _ = self.board.set(from, Field::Empty);
        let landing = if promotion.is_some() {
            match mover {
                Field::Occupied(c, _) => Field::Occupied(c, promotion.unwrap()),
                Field::Empty => mover,
            }
        } else {
            mover
        };
        assert(landing == placed(p, from, unto, promotion));
        let t1 = self.board.set(unto, landing);
        let victim = if ep {
            self.board.set(Coords::new(unto.f(), from.r()), Field::Empty)
        } else {
            t1
        };
        assert(victim == taken(p, from, unto, promotion));
        assert(self.board@ == board_after_capture(p, from, unto, promotion));
        self.white_castling = rights_after(self.white_castling, Colour::White, mover, victim, from, unto);
        self.black_castling = rights_after(self.black_castling, Colour::Black, mover, victim, from, unto);
        self.side_to_move = self.side_to_move.other();
        let double = is_pawn && (dn == 2 || dn == -2);
        if double {
            let over = Coords::from_u8_tuple(unto.f().i8(), from.r().i8() + dn / 2);
            assert(over is Some);
            self.en_passant_target = over;
        } else {
            self.en_passant_target = None;
            if is_king && (dl == 2 || dl == -2) {
                let rf = Coords::new(if dl > 0 { File::H } else { File::A }, unto.r());
                assert(rf == castle_rook_from(from, unto));
                let rook = self.board.set(rf, Field::Empty);
                let rt = unto.add(if dl > 0 { -1 } else { 1 }, 0);
                assert(rt is Some);
                assert(rt.unwrap() == castle_rook_to(from, unto));
                self.board.set(rt.unwrap(), rook);
            }
        }
        assert(self.board@ == board_after(p, from, unto, promotion));
        let check = self.in_check(self.side_to_move);
        if victim.is_occupied() {
            Ok(Success::Capture)
        } else if is_pawn && check {
            Ok(Success::PawnMovementAndCheck)
        } else if is_pawn {
            Ok(Success::PawnMovement)
        } else if check {
            Ok(Success::Check)
        } else {
            Ok(Success::PieceMovement)
        }
    }
}

/// A side's castling rights after a move of `mover` from `from` to `unto` that took `taken`.
fn rights_after(held: CastlesAllowed, side: Colour, mover: Field, taken: Field, from: Coords, unto: Coords) -> (r: CastlesAllowed)
    ensures
        r == castling_after(held, side, mover, taken, from, unto),
{
    let home = match side {
        Colour::White => Rank::N1,
        Colour::Black => Rank::N8,
    };
    let king = Field::Occupied(side, Piece::King);
    let keeps = mover != king && taken != king;
    let h = Coords::new(File::H, home);
    let a = Coords::new(File::A, home);
    proof {
        crate::location::lemma_at_idx();
    }
    CastlesAllowed {
        short: held.short && keeps && from != h && unto != h,
        long: held.long && keeps && from != a && unto != a,
    }
}

} // verus!
