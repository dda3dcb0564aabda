//! The rules of chess as spec functions over `Position`, the mathematical model of a
//! `BoardState`.
use vstd::prelude::*;

use crate::board::{Colour, Field, Piece};
use crate::location::{Coords, square_at, square_of_index};

verus! {

/// Which castling moves one side may still make.
#[derive(Debug, Copy, Clone, PartialEq, Eq, Hash, Structural)]
pub struct CastlesAllowed {
    /// Towards the `h` file.
    pub short: bool,
    /// Towards the `a` file.
    pub long: bool,
}

/// What the side to move did, for the bookkeeping of repetitions and the fifty-move rule.
#[derive(Debug, Copy, Clone, PartialEq, Eq, Hash, Structural)]
pub enum Success {
    Capture,
    PawnMovement,
    PawnMovementAndCheck,
    Check,
    PieceMovement,
}

/// A position: the board in raster order, whose turn it is, the castling rights and the
/// en-passant target.
pub struct Position {
    pub board: Seq<Field>,
    pub side_to_move: Colour,
    pub white_castling: CastlesAllowed,
    pub black_castling: CastlesAllowed,
    pub en_passant_target: Option<Coords>,
}

impl Position {
    pub open spec fn at(self, c: Coords) -> Field {
        self.board[c.idx()]
    }

    pub open spec fn castling(self, c: Colour) -> CastlesAllowed {
        match c {
            Colour::White => self.white_castling,
            Colour::Black => self.black_castling,
        }
    }
}

pub open spec fn abs(x: int) -> int {
    if x < 0 {
        -x
    } else {
        x
    }
}

pub open spec fn sgn(x: int) -> int {
    if x > 0 {
        1
    } else if x < 0 {
        -1
    } else {
        0
    }
}

/// `i` steps in direction `s` (one of -1, 0, 1).
pub open spec fn step(i: int, s: int) -> int {
    if s > 0 {
        i
    } else if s < 0 {
        -i
    } else {
        0
    }
}

/// The direction in which pawns of `c` move, as a rank difference.
pub open spec fn forwards(c: Colour) -> int {
    match c {
        Colour::White => 1,
        Colour::Black => -1,
    }
}

pub open spec fn colour_of(f: Field) -> Option<Colour> {
    match f {
        Field::Empty => None,
        Field::Occupied(c, _) => Some(c),
    }
}

/// The `i`-th square on the way from `from` towards `unto` (straight or diagonal).
pub open spec fn ray_square(from: Coords, unto: Coords, i: int) -> Coords {
    square_at(
        from.file.idx() + step(i, sgn(unto.file.idx() - from.file.idx())),
        from.rank.idx() + step(i, sgn(unto.rank.idx() - from.rank.idx())),
    )
}

/// Every square strictly between `from` and `unto` is empty.
pub open spec fn path_clear(p: Position, from: Coords, unto: Coords) -> bool {
    let dist = vstd::math::max(
        abs(unto.file.idx() - from.file.idx()),
        abs(unto.rank.idx() - from.rank.idx()),
    );
    forall|i: int| 1 <= i < dist ==> (#[trigger] p.at(ray_square(from, unto, i))) is Empty
}

/// A sliding move along a diagonal (where `diag`) or a file or rank (where `straight`).
pub open spec fn slides(p: Position, from: Coords, unto: Coords, diag: bool, straight: bool) -> bool {
    let al = abs(unto.file.idx() - from.file.idx());
    let an = abs(unto.rank.idx() - from.rank.idx());
    ((diag && al == an) || (straight && (al == 0 || an == 0))) && path_clear(p, from, unto)
}

/// The pawn rules; `taking` is whether `unto` holds an enemy piece.
pub open spec fn pawn_moves(p: Position, colour: Colour, from: Coords, unto: Coords, taking: bool) -> bool {
    let sign = forwards(colour);
    let d_num = if sign > 0 {
        unto.rank.idx() - from.rank.idx()
    } else {
        from.rank.idx() - unto.rank.idx()
    };
    let taking = taking || p.en_passant_target == Some(unto);
    if (from.file != unto.file) != taking {
        false
    } else if taking {
        d_num == 1 && abs(unto.file.idx() - from.file.idx()) == 1
    } else {
        d_num == 1 || (d_num == 2 && 2 * from.rank.idx() + 5 * sign == 7 && p.at(
            square_at(from.file.idx(), from.rank.idx() + sign),
        ) is Empty)
    }
}

pub open spec fn knight_moves(from: Coords, unto: Coords) -> bool {
    let l = abs(unto.file.idx() - from.file.idx());
    let n = abs(unto.rank.idx() - from.rank.idx());
    (l == 2 && n == 1) || (l == 1 && n == 2)
}

/// The king rules: one step, or two along the rank to castle where the right is held and
/// the square passed over is empty.
pub open spec fn king_moves(p: Position, colour: Colour, from: Coords, unto: Coords, taking: bool) -> bool {
    let dl = unto.file.idx() - from.file.idx();
    let dn = unto.rank.idx() - from.rank.idx();
    let ac = p.castling(colour);
    if abs(dl) <= 1 && abs(dn) <= 1 {
        true
    } else if dn == 0 {
        !taking && ((ac.short && dl == 2 && p.at(
            square_at(from.file.idx() + 1, from.rank.idx()),
        ) is Empty) || (ac.long && dl == -2 && p.at(
            square_at(from.file.idx() - 1, from.rank.idx()),
        ) is Empty))
    } else {
        false
    }
}

/// A piece of `colour` on `from` may move to `unto`, leaving aside whether its own king is
/// left in check.
pub open spec fn pseudo_legal(p: Position, colour: Colour, from: Coords, unto: Coords) -> bool {
    from != unto && match p.at(from) {
        Field::Empty => false,
        Field::Occupied(c, piece) => c == colour && colour_of(p.at(unto)) != Some(colour) && {
            let taking = p.at(unto) is Occupied;
            match piece {
                Piece::Pawn => pawn_moves(p, colour, from, unto, taking),
                Piece::Knight => knight_moves(from, unto),
                Piece::Bishop => slides(p, from, unto, true, false),
                Piece::Rook => slides(p, from, unto, false, true),
                Piece::Queen => slides(p, from, unto, true, true),
                Piece::King => king_moves(p, colour, from, unto, taking),
            }
        }
    }
}

/// The first square, in raster order from index `i` on, that holds the king of `c`.
pub open spec fn king_from(p: Position, c: Colour, i: int) -> Option<Coords>
    decreases 64 - i,
{
    if i >= 64 || i < 0 {
        None
    } else if p.board[i] == Field::Occupied(c, Piece::King) {
        Some(square_of_index(i))
    } else {
        king_from(p, c, i + 1)
    }
}

/// The square of the king of `c` (the first in raster order, should there be several).
pub open spec fn king_square(p: Position, c: Colour) -> Option<Coords> {
    king_from(p, c, 0)
}

/// Some piece of `by` may move to `spot`.
pub open spec fn attacked(p: Position, spot: Coords, by: Colour) -> bool {
    exists|c: Coords| #[trigger] pseudo_legal(p, by, c, spot)
}

/// The king of `side` is attacked. A side without a king is never in check.
pub open spec fn in_check(p: Position, side: Colour) -> bool {
    match king_square(p, side) {
        Some(k) => attacked(p, k, side.spec_other()),
        None => false,
    }
}

/// The piece of `by` on `from` attacks `spot`: it could capture there were an enemy piece
/// standing on it. A pawn attacks the two squares diagonally in front of it, occupied or not;
/// a king the squares next to it.
pub open spec fn attacks(p: Position, by: Colour, from: Coords, spot: Coords) -> bool {
    let dl = spot.file.idx() - from.file.idx();
    let dn = spot.rank.idx() - from.rank.idx();
    from != spot && match p.at(from) {
        Field::Empty => false,
        Field::Occupied(c, piece) => c == by && match piece {
            Piece::Pawn => dn == forwards(by) && abs(dl) == 1,
            Piece::Knight => knight_moves(from, spot),
            Piece::Bishop => slides(p, from, spot, true, false),
            Piece::Rook => slides(p, from, spot, false, true),
            Piece::Queen => slides(p, from, spot, true, true),
            Piece::King => abs(dl) <= 1 && abs(dn) <= 1,
        },
    }
}

/// Some piece of `by` attacks `spot`.
pub open spec fn controlled(p: Position, spot: Coords, by: Colour) -> bool {
    exists|c: Coords| #[trigger] attacks(p, by, c, spot)
}

/// A pawn must promote, to neither a pawn nor a king, exactly when it reaches a back rank;
/// no other move names a promotion.
pub open spec fn promotion_ok(p: Position, from: Coords, unto: Coords, promotion: Option<Piece>) -> bool {
    let back = unto.rank.idx() == 0 || unto.rank.idx() == 7;
    if p.at(from).spec_piece() == Some(Piece::Pawn) {
        match promotion {
            None => !back,
            Some(Piece::King) => false,
            Some(Piece::Pawn) => false,
            Some(_) => back,
        }
    } else {
        promotion is None
    }
}

/// A castling king may not start in check nor pass over an attacked square.
pub open spec fn castles_through_check(p: Position, from: Coords, unto: Coords) -> bool {
    let dl = unto.file.idx() - from.file.idx();
    abs(dl) == 2 && p.at(from).spec_piece() == Some(Piece::King) && (in_check(p, p.side_to_move)
        || controlled(
        p,
        square_at(from.file.idx() + dl / 2, from.rank.idx()),
        p.side_to_move.spec_other(),
    ))
}

/// The move passes the checks that `BoardState::make_move` makes before it moves anything.
pub open spec fn move_accepted(p: Position, from: Coords, unto: Coords, promotion: Option<Piece>) -> bool {
    pseudo_legal(p, p.side_to_move, from, unto) && promotion_ok(p, from, unto, promotion)
        && !castles_through_check(p, from, unto)
}

/// An en-passant capture: a pawn moves onto the en-passant target.
pub open spec fn is_en_passant(p: Position, from: Coords, unto: Coords) -> bool {
    p.en_passant_target == Some(unto) && p.at(from).spec_piece() == Some(Piece::Pawn)
}

/// A pawn moves two squares.
pub open spec fn is_double_step(p: Position, from: Coords, unto: Coords) -> bool {
    p.at(from).spec_piece() == Some(Piece::Pawn) && abs(unto.rank.idx() - from.rank.idx()) == 2
}

/// A king moves two squares along its rank.
pub open spec fn is_castle(p: Position, from: Coords, unto: Coords) -> bool {
    p.at(from).spec_piece() == Some(Piece::King) && abs(unto.file.idx() - from.file.idx()) == 2
}

/// The square of the pawn that an en-passant capture removes: beside the mover's start, on
/// the destination's file.
pub open spec fn en_passant_victim(from: Coords, unto: Coords) -> Coords {
    Coords { file: unto.file, rank: from.rank }
}

/// What lands on `unto`: the mover, or the piece it promotes to.
pub open spec fn placed(p: Position, from: Coords, unto: Coords, promotion: Option<Piece>) -> Field {
    let mover = p.at(from);
    if promotion is Some && mover is Occupied {
        Field::Occupied(colour_of(mover)->0, promotion->0)
    } else {
        mover
    }
}

/// The board after the mover has left `from` and landed on `unto`, with an en-passant victim
/// removed.
pub open spec fn board_after_capture(p: Position, from: Coords, unto: Coords, promotion: Option<Piece>) -> Seq<Field> {
    let b2 = p.board.update(from.idx(), Field::Empty).update(
        unto.idx(),
        placed(p, from, unto, promotion),
    );
    if is_en_passant(p, from, unto) {
        b2.update(en_passant_victim(from, unto).idx(), Field::Empty)
    } else {
        b2
    }
}

/// What the move captures.
pub open spec fn taken(p: Position, from: Coords, unto: Coords, promotion: Option<Piece>) -> Field {
    let b1 = p.board.update(from.idx(), Field::Empty);
    if is_en_passant(p, from, unto) {
        b1.update(unto.idx(), placed(p, from, unto, promotion))[en_passant_victim(
            from,
            unto,
        ).idx()]
    } else {
        b1[unto.idx()]
    }
}

/// The corner from which the rook comes when the king castles from `from` to `unto`.
pub open spec fn castle_rook_from(from: Coords, unto: Coords) -> Coords {
    square_at(if unto.file.idx() > from.file.idx() { 7 } else { 0 }, unto.rank.idx())
}

/// The square beside the castled king on which the rook lands.
pub open spec fn castle_rook_to(from: Coords, unto: Coords) -> Coords {
    square_at(unto.file.idx() - sgn(unto.file.idx() - from.file.idx()), unto.rank.idx())
}

/// The board after the whole move, the rook of a castling included.
pub open spec fn board_after(p: Position, from: Coords, unto: Coords, promotion: Option<Piece>) -> Seq<Field> {
    let b3 = board_after_capture(p, from, unto, promotion);
    if !is_double_step(p, from, unto) && is_castle(p, from, unto) {
        let rf = castle_rook_from(from, unto);
        b3.update(rf.idx(), Field::Empty).update(castle_rook_to(from, unto).idx(), b3[rf.idx()])
    } else {
        b3
    }
}

pub open spec fn corner(file: int, rank: int) -> Coords {
    square_at(file, rank)
}

/// A castling right after a move: lost when its king moves or is taken, and when the rook's
/// corner is moved from or landed on.
pub open spec fn right_after(
    held: bool,
    side: Colour,
    rook_corner: Coords,
    mover: Field,
    taken: Field,
    from: Coords,
    unto: Coords,
) -> bool {
    held && mover != Field::Occupied(side, Piece::King) && taken != Field::Occupied(side, Piece::King)
        && from != rook_corner && unto != rook_corner
}

/// The castling rights of `side` after a move of `mover` from `from` to `unto` that took
/// `taken`, where `held` were the rights before.
pub open spec fn castling_after(
    held: CastlesAllowed,
    side: Colour,
    mover: Field,
    taken: Field,
    from: Coords,
    unto: Coords,
) -> CastlesAllowed {
    let home = match side {
        Colour::White => 0int,
        Colour::Black => 7int,
    };
    CastlesAllowed {
        short: right_after(held.short, side, corner(7, home), mover, taken, from, unto),
        long: right_after(held.long, side, corner(0, home), mover, taken, from, unto),
    }
}

/// The square that a pawn's double step passes over.
pub open spec fn passed_over(from: Coords, unto: Coords) -> Coords {
    square_at(unto.file.idx(), from.rank.idx() + sgn(unto.rank.idx() - from.rank.idx()))
}

/// The position after the move, once `move_accepted` holds.
pub open spec fn position_after(p: Position, from: Coords, unto: Coords, promotion: Option<Piece>) -> Position {
    let t = taken(p, from, unto, promotion);
    Position {
        board: board_after(p, from, unto, promotion),
        side_to_move: p.side_to_move.spec_other(),
        white_castling: castling_after(p.white_castling, Colour::White, p.at(from), t, from, unto),
        black_castling: castling_after(p.black_castling, Colour::Black, p.at(from), t, from, unto),
        en_passant_target: if is_double_step(p, from, unto) {
            Some(passed_over(from, unto))
        } else {
            None
        },
    }
}

/// How a move is classified, given whether it captured, moved a pawn and gave check.
pub open spec fn classify(capture: bool, pawn: bool, check: bool) -> Success {
    if capture {
        Success::Capture
    } else if pawn && check {
        Success::PawnMovementAndCheck
    } else if pawn {
        Success::PawnMovement
    } else if check {
        Success::Check
    } else {
        Success::PieceMovement
    }
}

/// The outcome of `make_move`: the new position and the move's class, or `None` where the
/// move is refused.
pub open spec fn apply_move(p: Position, from: Coords, unto: Coords, promotion: Option<Piece>) -> Option<(Position, Success)> {
    if move_accepted(p, from, unto, promotion) {
        let q = position_after(p, from, unto, promotion);
        Some(
            (
                q,
                classify(
                    taken(p, from, unto, promotion) is Occupied,
                    p.at(from).spec_piece() == Some(Piece::Pawn),
                    in_check(q, q.side_to_move),
                ),
            ),
        )
    } else {
        None
    }
}

/// A fully legal move: accepted, and the mover's own king is not in check afterwards.
pub open spec fn legal(p: Position, from: Coords, unto: Coords, promotion: Option<Piece>) -> bool {
    move_accepted(p, from, unto, promotion) && !in_check(
        position_after(p, from, unto, promotion),
        p.side_to_move,
    )
}

/// A move played successfully hands the turn to the other side.
pub proof fn lemma_move_flips_side(p: Position, from: Coords, unto: Coords, promotion: Option<Piece>)
    requires
        apply_move(p, from, unto, promotion) is Some,
    ensures
        position_after(p, from, unto, promotion).side_to_move == p.side_to_move.spec_other(),
{
}

/// A pawn's double step sets the en-passant target to the square it passed over, on the
/// mover's third rank; whatever move follows, that target is gone after it.
pub proof fn lemma_en_passant_lasts_one_move(
    p: Position,
    from: Coords,
    unto: Coords,
    promotion: Option<Piece>,
    next_from: Coords,
    next_unto: Coords,
    next_promotion: Option<Piece>,
)
    requires
        apply_move(p, from, unto, promotion) is Some,
        is_double_step(p, from, unto),
    ensures
        ({
            let q = position_after(p, from, unto, promotion);
            &&& q.en_passant_target == Some(passed_over(from, unto))
            &&& passed_over(from, unto).rank.idx() == match p.side_to_move {
                Colour::White => 2int,
                Colour::Black => 5int,
            }
            &&& apply_move(q, next_from, next_unto, next_promotion) is Some ==> position_after(q, next_from, next_unto, next_promotion).en_passant_target != q.en_passant_target
        }),
{
    crate::location::lemma_at_idx();
    let q = position_after(p, from, unto, promotion);
    if apply_move(q, next_from, next_unto, next_promotion) is Some {
        if is_double_step(q, next_from, next_unto) {
            crate::location::Rank::lemma_idx_injective(
                passed_over(next_from, next_unto).rank,
                passed_over(from, unto).rank,
            );
        }
    }
}

/// A castling right never comes back: each right after a move was already held before it,
/// and a king that moves, or a rook corner moved from or landed on, loses its rights.
pub proof fn lemma_castling_rights_only_fall(p: Position, from: Coords, unto: Coords, promotion: Option<Piece>)
    requires
        apply_move(p, from, unto, promotion) is Some,
    ensures
        ({
            let q = position_after(p, from, unto, promotion);
            &&& q.white_castling.short ==> p.white_castling.short
            &&& q.white_castling.long ==> p.white_castling.long
            &&& q.black_castling.short ==> p.black_castling.short
            &&& q.black_castling.long ==> p.black_castling.long
            &&& p.at(from) == Field::Occupied(Colour::White, Piece::King) ==> !q.white_castling.short
                && !q.white_castling.long
            &&& p.at(from) == Field::Occupied(Colour::Black, Piece::King) ==> !q.black_castling.short
                && !q.black_castling.long
            &&& (from == square_at(7, 0) || unto == square_at(7, 0)) ==> !q.white_castling.short
            &&& (from == square_at(0, 0) || unto == square_at(0, 0)) ==> !q.white_castling.long
            &&& (from == square_at(7, 7) || unto == square_at(7, 7)) ==> !q.black_castling.short
            &&& (from == square_at(0, 7) || unto == square_at(0, 7)) ==> !q.black_castling.long
        }),
{
}

/// The position after each move of `moves` in turn, or `None` where one is refused.
pub open spec fn play(p: Position, moves: Seq<(Coords, Coords, Option<Piece>)>) -> Option<Position>
    decreases moves.len(),
{
    if moves.len() == 0 {
        Some(p)
    } else {
        match apply_move(p, moves[0].0, moves[0].1, moves[0].2) {
            None => None,
            Some((q, _)) => play(q, moves.drop_first()),
        }
    }
}

/// A castling right that is lost stays lost for the rest of the game.
pub proof fn lemma_lost_right_stays_lost(p: Position, moves: Seq<(Coords, Coords, Option<Piece>)>)
    requires
        play(p, moves) is Some,
    ensures
        !p.white_castling.short ==> !play(p, moves)->0.white_castling.short,
        !p.white_castling.long ==> !play(p, moves)->0.white_castling.long,
        !p.black_castling.short ==> !play(p, moves)->0.black_castling.short,
        !p.black_castling.long ==> !play(p, moves)->0.black_castling.long,
    decreases moves.len(),
{
    if moves.len() > 0 {
        let m = moves[0];
        lemma_castling_rights_only_fall(p, m.0, m.1, m.2);
        lemma_lost_right_stays_lost(position_after(p, m.0, m.1, m.2), moves.drop_first());
    }
}

proof fn lemma_king_from_holds_king(p: Position, c: Colour, i: int)
    requires
        king_from(p, c, i) is Some,
    ensures
        p.at(king_from(p, c, i)->0) == Field::Occupied(c, Piece::King),
    decreases 64 - i,
{
    if 0 <= i < 64 && p.board[i] != Field::Occupied(c, Piece::King) {
        lemma_king_from_holds_king(p, c, i + 1);
    } else {
        Coords::lemma_index_square(i);
    }
}

/// A rook on the same file as the enemy king, with nothing between them, gives check.
pub proof fn lemma_rook_on_open_file_checks(p: Position, rook: Coords, king: Coords, by: Colour)
    requires
        p.at(rook) == Field::Occupied(by, Piece::Rook),
        king_square(p, by.spec_other()) == Some(king),
        rook.file == king.file,
        rook != king,
        forall|c: Coords|
            c.file == rook.file && vstd::math::min(rook.rank.idx(), king.rank.idx()) < c.rank.idx()
                < vstd::math::max(rook.rank.idx(), king.rank.idx()) ==> (#[trigger] p.at(c)) is Empty,
    ensures
        in_check(p, by.spec_other()),
{
    crate::location::lemma_at_idx();
    lemma_king_from_holds_king(p, by.spec_other(), 0);
    assert forall|i: int|
        1 <= i < vstd::math::max(
            abs(king.file.idx() - rook.file.idx()),
            abs(king.rank.idx() - rook.rank.idx()),
        ) implies (#[trigger] p.at(ray_square(rook, king, i))) is Empty by {
        let c = ray_square(rook, king, i);
        assert(c.file == rook.file);
    }
    assert(pseudo_legal(p, by, rook, king));
}

/// A king never castles out of check nor over a square that an enemy piece attacks, pawn
/// diagonals included.
pub proof fn lemma_castling_avoids_attacked_squares(p: Position, from: Coords, unto: Coords, promotion: Option<Piece>)
    requires
        apply_move(p, from, unto, promotion) is Some,
        p.at(from).spec_piece() == Some(Piece::King),
        abs(unto.file.idx() - from.file.idx()) == 2,
    ensures
        !in_check(p, p.side_to_move),
        !controlled(
            p,
            square_at(from.file.idx() + (unto.file.idx() - from.file.idx()) / 2, from.rank.idx()),
            p.side_to_move.spec_other(),
        ),
{
}

} // verus!
