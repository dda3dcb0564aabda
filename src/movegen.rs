//! Enumeration of the fully legal moves of a position, in a fixed order.
use vstd::prelude::*;

use crate::board::{Colour, Field, Piece};
use crate::boardstate::BoardState;
use crate::location::{Coords, File, Rank, offset, square_at, square_of_index};
use crate::rules::{
    Position, abs, forwards, king_moves, knight_moves, legal, move_accepted, pawn_moves, promotion_ok,
    pseudo_legal, ray_square, sgn, slides, step,
};

verus! {

/// A move: from, to, and the piece a pawn promotes to.
pub type Move = (Coords, Coords, Option<Piece>);

/// A sink could not take another move.
#[derive(Debug, Clone, Copy)]
pub struct NoMoreSpace;

/// A place that generated moves are written to.
pub trait AddMove {
    /// The moves taken so far.
    spec fn added(&self) -> Seq<Move>;

    /// The sink takes no more moves.
    spec fn full(&self) -> bool;

    /// Returns an error if it could not add the move due to lack of space.
    fn add_move(&mut self, mv: Move) -> (r: Result<(), NoMoreSpace>)
        ensures
            r is Err <==> old(self).full(),
            r is Ok ==> final(self).added() == old(self).added().push(mv),
            r is Err ==> final(self).added() == old(self).added() && final(self).full(),
    ;
}

/// Takes nothing: the generator stops at the first legal move it finds.
impl AddMove for () {
    open spec fn added(&self) -> Seq<Move> {
        Seq::empty()
    }

    open spec fn full(&self) -> bool {
        true
    }

    fn add_move(&mut self, mv: Move) -> (r: Result<(), NoMoreSpace>) {
        Err(NoMoreSpace)
    }
}

/// Takes every move.
impl AddMove for Vec<Move> {
    open spec fn added(&self) -> Seq<Move> {
        self@
    }

    open spec fn full(&self) -> bool {
        false
    }

    fn add_move(&mut self, mv: Move) -> (r: Result<(), NoMoreSpace>) {
        self.push(mv);
        Ok(())
    }
}

/// Takes moves up to a fixed number.
pub struct MoveBuffer {
    moves: Vec<Move>,
    capacity: usize,
}

impl MoveBuffer {
    pub closed spec fn spec_moves(&self) -> Seq<Move> {
        self.moves@
    }

    pub closed spec fn spec_capacity(&self) -> nat {
        self.capacity as nat
    }

    /// An empty buffer that takes at most `capacity` moves.
    pub fn new(capacity: usize) -> (r: MoveBuffer)
        ensures
            r.spec_moves() == Seq::<Move>::empty(),
            r.spec_capacity() == capacity,
    {
        MoveBuffer { moves: Vec::new(), capacity }
    }

    pub fn moves(&self) -> (r: &Vec<Move>)
        ensures
            r@ == self.spec_moves(),
    {
        &self.moves
    }
}

impl AddMove for MoveBuffer {
    open spec fn added(&self) -> Seq<Move> {
        self.spec_moves()
    }

    open spec fn full(&self) -> bool {
        self.spec_moves().len() >= self.spec_capacity()
    }

    fn add_move(&mut self, mv: Move) -> (r: Result<(), NoMoreSpace>) {
        if self.moves.len() >= self.capacity {
            return Err(NoMoreSpace);
        }
        self.moves.push(mv);
        Ok(())
    }
}

/// Knight jumps, in the order they are tried.
pub open spec fn knight_offsets() -> Seq<(int, int)> {
    seq![(2, 1), (2, -1), (1, 2), (1, -2), (-2, 1), (-2, -1), (-1, 2), (-1, -2)]
}

/// King steps, straight, then diagonal, then the two castling moves.
pub open spec fn king_offsets() -> Seq<(int, int)> {
    seq![(1, 0), (-1, 0), (0, 1), (0, -1), (1, 1), (1, -1), (-1, 1), (-1, -1), (2, 0), (-2, 0)]
}

pub open spec fn straights() -> Seq<(int, int)> {
    seq![(1, 0), (-1, 0), (0, 1), (0, -1)]
}

pub open spec fn diagonals() -> Seq<(int, int)> {
    seq![(1, 1), (1, -1), (-1, 1), (-1, -1)]
}

/// The directions in which a bishop, rook or queen slides.
pub open spec fn slide_dirs(piece: Piece) -> Seq<(int, int)> {
    match piece {
        Piece::Bishop => diagonals(),
        Piece::Rook => straights(),
        _ => straights() + diagonals(),
    }
}

/// A move to each square that one of `offs` reaches from `from`.
pub open spec fn leap_moves(from: Coords, offs: Seq<(int, int)>) -> Seq<Move>
    decreases offs.len(),
{
    if offs.len() == 0 {
        Seq::empty()
    } else {
        let rest = leap_moves(from, offs.drop_first());
        match offset(from, offs[0].0, offs[0].1) {
            Some(c) => seq![(from, c, None::<Piece>)] + rest,
            None => rest,
        }
    }
}

/// Moves along direction `(dl, dn)` from the `k`-th square on: each square up to the edge
/// or the first occupied square, that one included.
pub open spec fn ray_moves(p: Position, from: Coords, dl: int, dn: int, k: int) -> Seq<Move>
    decreases 8 - k,
{
    if k >= 8 || k < 1 {
        Seq::empty()
    } else {
        match offset(from, step(k, dl), step(k, dn)) {
            None => Seq::empty(),
            Some(c) => seq![(from, c, None::<Piece>)] + if p.at(c) is Empty {
                ray_moves(p, from, dl, dn, k + 1)
            } else {
                Seq::empty()
            },
        }
    }
}

/// The ray moves in each of `dirs`, in order.
pub open spec fn rays(p: Position, from: Coords, dirs: Seq<(int, int)>) -> Seq<Move>
    decreases dirs.len(),
{
    if dirs.len() == 0 {
        Seq::empty()
    } else {
        ray_moves(p, from, dirs[0].0, dirs[0].1, 1) + rays(p, from, dirs.drop_first())
    }
}

/// A pawn move to `t`: four, one for each promotion, where `t` is on a back rank.
pub open spec fn pawn_group(from: Coords, t: Option<Coords>) -> Seq<Move> {
    match t {
        None => Seq::empty(),
        Some(c) => if c.rank.idx() == 0 || c.rank.idx() == 7 {
            seq![
                (from, c, Some(Piece::Queen)),
                (from, c, Some(Piece::Knight)),
                (from, c, Some(Piece::Rook)),
                (from, c, Some(Piece::Bishop)),
            ]
        } else {
            seq![(from, c, None::<Piece>)]
        },
    }
}

/// One step forwards, two steps, and the two diagonal captures.
pub open spec fn pawn_moves_from(from: Coords, side: Colour) -> Seq<Move> {
    let f = forwards(side);
    pawn_group(from, offset(from, 0, f)) + pawn_group(from, offset(from, 0, 2 * f)) + pawn_group(
        from,
        offset(from, 1, f),
    ) + pawn_group(from, offset(from, -1, f))
}

/// The moves tried for the piece on `from`, where it belongs to the side to move.
pub open spec fn square_candidates(p: Position, from: Coords) -> Seq<Move> {
    match p.at(from) {
        Field::Occupied(c, piece) => if c != p.side_to_move {
            Seq::empty()
        } else {
            match piece {
                Piece::Pawn => pawn_moves_from(from, c),
                Piece::Knight => leap_moves(from, knight_offsets()),
                Piece::King => leap_moves(from, king_offsets()),
                _ => rays(p, from, slide_dirs(piece)),
            }
        },
        Field::Empty => Seq::empty(),
    }
}

/// The moves tried for the squares of raster index below `i`.
pub open spec fn candidates_below(p: Position, i: int) -> Seq<Move>
    decreases i,
{
    if i <= 0 {
        Seq::empty()
    } else {
        candidates_below(p, i - 1) + square_candidates(p, square_of_index(i - 1))
    }
}

/// Every move tried, in order: squares in raster order, and each piece's moves in the order
/// of its offsets and directions.
pub open spec fn candidates(p: Position) -> Seq<Move> {
    candidates_below(p, 64)
}

pub open spec fn is_legal(p: Position, m: Move) -> bool {
    legal(p, m.0, m.1, m.2)
}

pub open spec fn legal_pred(p: Position) -> spec_fn(Move) -> bool {
    |m: Move| is_legal(p, m)
}

/// The legal moves, in generation order.
pub open spec fn legal_moves(p: Position) -> Seq<Move> {
    candidates(p).filter(legal_pred(p))
}

fn knight_offset(k: usize) -> (r: (i8, i8))
    requires
        k < 8,
    ensures
        (r.0 as int, r.1 as int) == knight_offsets()[k as int],
{
    match k {
        0 => (2, 1),
        1 => (2, -1),
        2 => (1, 2),
        3 => (1, -2),
        4 => (-2, 1),
        5 => (-2, -1),
        6 => (-1, 2),
        _ => (-1, -2),
    }
}

fn king_offset(k: usize) -> (r: (i8, i8))
    requires
        k < 10,
    ensures
        (r.0 as int, r.1 as int) == king_offsets()[k as int],
{
    match k {
        0 => (1, 0),
        1 => (-1, 0),
        2 => (0, 1),
        3 => (0, -1),
        4 => (1, 1),
        5 => (1, -1),
        6 => (-1, 1),
        7 => (-1, -1),
        8 => (2, 0),
        _ => (-2, 0),
    }
}

fn slide_dir(piece: Piece, k: usize) -> (r: (i8, i8))
    requires
        k < slide_dirs(piece).len(),
    ensures
        (r.0 as int, r.1 as int) == slide_dirs(piece)[k as int],
        -1 <= r.0 <= 1,
        -1 <= r.1 <= 1,
{
    match piece {
        Piece::Bishop => match k {
            0 => (1, 1),
            1 => (1, -1),
            2 => (-1, 1),
            _ => (-1, -1),
        },
        Piece::Rook => match k {
            0 => (1, 0),
            1 => (-1, 0),
            2 => (0, 1),
            _ => (0, -1),
        },
        _ => match k {
            0 => (1, 0),
            1 => (-1, 0),
            2 => (0, 1),
            3 => (0, -1),
            4 => (1, 1),
            5 => (1, -1),
            6 => (-1, 1),
            _ => (-1, -1),
        },
    }
}

/// Appends the moves to the squares that the offsets of the knight (or, where `king`, of the
/// king) reach from `from`.
fn push_leaps(v: &mut Vec<Move>, from: Coords, king: bool)
    ensures
        final(v)@ == old(v)@ + leap_moves(
            from,
            if king {
                king_offsets()
            } else {
                knight_offsets()
            },
        ),
{
    let ghost offs = if king {
        king_offsets()
    } else {
        knight_offsets()
    };
    let n: usize = if king { 10 } else { 8 };
    let mut k: usize = 0;
    assert(offs.skip(0) =~= offs);
    while k < n
        invariant
            n == offs.len(),
            offs == (if king {
                king_offsets()
            } else {
                knight_offsets()
            }),
            0 <= k <= n,
            v@ + leap_moves(from, offs.skip(k as int)) == old(v)@ + leap_moves(from, offs),
        decreases n - k,
    {
        let (dl, dn) = if king { king_offset(k) } else { knight_offset(k) };
        proof {
            assert(offs.skip(k as int).drop_first() =~= offs.skip(k + 1));
            assert(offs.skip(k as int)[0] == offs[k as int]);
        }
        let ghost before = v@;
        match from.add(dl, dn) {
            Some(c) => {
                v.push((from, c, None));
                assert(v@ + leap_moves(from, offs.skip(k + 1)) =~= before + leap_moves(
                    from,
                    offs.skip(k as int),
                ));
            },
            None => {},
        }
        k = k + 1;
    }
    assert(offs.skip(n as int) =~= Seq::<(int, int)>::empty());
    assert(v@ =~= v@ + leap_moves(from, offs.skip(n as int)));
}

/// Appends the moves along direction `(dl, dn)` from `from`, up to the edge or the first
/// occupied square.
#[verifier::rlimit(40)]
fn push_ray(v: &mut Vec<Move>, state: &BoardState, from: Coords, dl: i8, dn: i8)
    requires
        -1 <= dl <= 1,
        -1 <= dn <= 1,
    ensures
        final(v)@ == old(v)@ + ray_moves(state@, from, dl as int, dn as int, 1),
{
    let mut k: i8 = 1;
    while k < 8
        invariant
            1 <= k <= 8,
            -1 <= dl <= 1,
            -1 <= dn <= 1,
            v@ + ray_moves(state@, from, dl as int, dn as int, k as int) == old(v)@ + ray_moves(
                state@,
                from,
                dl as int,
                dn as int,
                1,
            ),
        decreases 8 - k,
    {
        let ml: i8 = if dl > 0 { k } else if dl < 0 { -k } else { 0 };
        let mn: i8 = if dn > 0 { k } else if dn < 0 { -k } else { 0 };
        let ghost before = v@;
        match from.add(ml, mn) {
            None => {
                return;
            },
            Some(c) => {
                v.push((from, c, None));
                if !state.get(c).is_empty() {
                    assert(v@ =~= before + ray_moves(state@, from, dl as int, dn as int, k as int));
                    return;
                }
                assert(v@ + ray_moves(state@, from, dl as int, dn as int, k + 1) =~= before
                    + ray_moves(state@, from, dl as int, dn as int, k as int));
            },
        }
        k = k + 1;
    }
    assert(v@ =~= v@ + ray_moves(state@, from, dl as int, dn as int, 8));
}

/// Appends the moves of the bishop, rook or queen `piece` on `from`.
fn push_rays(v: &mut Vec<Move>, state: &BoardState, from: Coords, piece: Piece)
    ensures
        final(v)@ == old(v)@ + rays(state@, from, slide_dirs(piece)),
{
    let ghost dirs = slide_dirs(piece);
    let n: usize = match piece {
        Piece::Bishop => 4,
        Piece::Rook => 4,
        _ => 8,
    };
    let mut k: usize = 0;
    assert(dirs.skip(0) =~= dirs);
    while k < n
        invariant
            dirs == slide_dirs(piece),
            n == dirs.len(),
            0 <= k <= n,
            v@ + rays(state@, from, dirs.skip(k as int)) == old(v)@ + rays(state@, from, dirs),
        decreases n - k,
    {
        let (dl, dn) = slide_dir(piece, k);
        proof {
            assert(dirs.skip(k as int).drop_first() =~= dirs.skip(k + 1));
            assert(dirs.skip(k as int)[0] == dirs[k as int]);
        }
        let ghost before = v@;
        push_ray(v, state, from, dl, dn);
        assert(v@ + rays(state@, from, dirs.skip(k + 1)) =~= before + rays(
            state@,
            from,
            dirs.skip(k as int),
        ));
        k = k + 1;
    }
    assert(dirs.skip(n as int) =~= Seq::<(int, int)>::empty());
    assert(v@ =~= v@ + rays(state@, from, dirs.skip(n as int)));
}

/// Appends the pawn moves to `t`: one for each promotion where `t` is on a back rank.
fn push_pawn_group(v: &mut Vec<Move>, from: Coords, t: Option<Coords>)
    ensures
        final(v)@ == old(v)@ + pawn_group(from, t),
{
    match t {
        None => {
            assert(v@ =~= v@ + pawn_group(from, t));
        },
        Some(c) => {
            if c.rank.i8() == 0 || c.rank.i8() == 7 {
                v.push((from, c, Some(Piece::Queen)));
                v.push((from, c, Some(Piece::Knight)));
                v.push((from, c, Some(Piece::Rook)));
                v.push((from, c, Some(Piece::Bishop)));
            } else {
                v.push((from, c, None));
            }
            assert(v@ =~= old(v)@ + pawn_group(from, t));
        },
    }
}

/// The moves tried for the piece on `from`: none unless it belongs to the side to move.
fn candidates_of(state: &BoardState, from: Coords) -> (r: Vec<Move>)
    ensures
        r@ == square_candidates(state@, from),
{
    let mut v: Vec<Move> = Vec::new();
    match state.get(from) {
        Field::Occupied(side, p) => {
            if side != state.side_to_move {
                return v;
            }
            match p {
                Piece::Pawn => {
                    let f: i8 = match side {
                        Colour::Black => -1,
                        Colour::White => 1,
                    };
                    push_pawn_group(&mut v, from, from.add(0, f));
                    push_pawn_group(&mut v, from, from.add(0, 2 * f));
                    push_pawn_group(&mut v, from, from.add(1, f));
                    push_pawn_group(&mut v, from, from.add(-1, f));
                },
                Piece::Knight => push_leaps(&mut v, from, false),
                Piece::King => push_leaps(&mut v, from, true),
                _ => push_rays(&mut v, state, from, p),
            }
            assert(v@ =~= square_candidates(state@, from));
        },
        Field::Empty => {},
    }
    v
}

/// Whether the move is legal: it is accepted, and the mover's king is not in check after it.
pub(crate) fn check_move(state: &BoardState, mv: Move) -> (r: bool)
    ensures
        r == is_legal(state@, mv),
{
    let mut next = *state;
    match next.make_move(mv.0, mv.1, mv.2) {
        Ok(_) => !next.in_check(state.side_to_move),
        Err(_) => false,
    }
}

pub proof fn lemma_filter_push<A>(a: Seq<A>, m: A, f: spec_fn(A) -> bool)
    ensures
        a.push(m).filter(f) == if f(m) {
            a.filter(f).push(m)
        } else {
            a.filter(f)
        },
{
    reveal(Seq::filter);
    assert(a.push(m).drop_last() =~= a);
}

pub proof fn lemma_filter_prefix<A>(x: Seq<A>, z: Seq<A>, f: spec_fn(A) -> bool)
    ensures
        (x + z).filter(f).len() >= x.filter(f).len(),
        (x + z).filter(f).take(x.filter(f).len() as int) == x.filter(f),
{
    Seq::filter_distributes_over_add(x, z, f);
    assert((x.filter(f) + z.filter(f)).take(x.filter(f).len() as int) =~= x.filter(f));
}

proof fn lemma_below_prefix(p: Position, i: int, j: int)
    requires
        0 <= i <= j,
    ensures
        candidates_below(p, j) == candidates_below(p, i) + candidates_below(p, j).skip(
            candidates_below(p, i).len() as int,
        ),
    decreases j - i,
{
    if j > i {
        lemma_below_prefix(p, i, j - 1);
        assert(candidates_below(p, j) =~= candidates_below(p, i) + candidates_below(p, j).skip(
            candidates_below(p, i).len() as int,
        ));
    } else {
        assert(candidates_below(p, j) =~= candidates_below(p, i) + candidates_below(p, j).skip(
            candidates_below(p, i).len() as int,
        ));
    }
}

/// Writes the legal moves of `state` into `buf`, in generation order, until `buf` is full.
/// On success `buf` has taken them all; on failure it is full and has taken the first few.
#[verifier::rlimit(50)]
pub fn gen_legal_moves<B: AddMove>(buf: &mut B, state: &BoardState) -> (r: Result<(), NoMoreSpace>)
    ensures
        r is Ok ==> final(buf).added() == old(buf).added() + legal_moves(state@),
        r is Err ==> final(buf).full() && exists|k: int|
            0 <= k < legal_moves(state@).len() && final(buf).added() == old(buf).added()
                + legal_moves(state@).take(k),
{
    let ghost p = state@;
    let ghost f = legal_pred(p);
    let mut i: u8 = 0;
    while i < 64
        invariant
            0 <= i <= 64,
            p == state@,
            f == legal_pred(p),
            buf.added() == old(buf).added() + candidates_below(p, i as int).filter(f),
        decreases 64 - i,
    {
        let from = Coords::from_index(i);
        let cands = candidates_of(state, from);
        let ghost below = candidates_below(p, i as int);
        assert(below + cands@.take(0) =~= below);
        let mut j: usize = 0;
        while j < cands.len()
            invariant
                0 <= j <= cands.len(),
                p == state@,
                f == legal_pred(p),
                below == candidates_below(p, i as int),
                cands@ == square_candidates(p, square_of_index(i as int)),
                i < 64,
                buf.added() == old(buf).added() + (below + cands@.take(j as int)).filter(f),
            decreases cands.len() - j,
        {
            let mv = cands[j];
            let ghost y = below + cands@.take(j as int);
            assert(below + cands@.take(j + 1) =~= y.push(mv));
            proof {
                lemma_filter_push(y, mv, f);
            }
            if check_move(state, mv) {
                match buf.add_move(mv) {
                    Err(e) => {
                        proof {
                            let c = candidates(p);
                            lemma_below_prefix(p, i + 1, 64);
                            let z = cands@.skip(j + 1) + c.skip(candidates_below(p, i + 1).len() as int);
                            assert(c =~= y.push(mv) + z);
                            lemma_filter_prefix(y.push(mv), z, f);
                            let k = y.filter(f).len() as int;
                            assert(legal_moves(p).take(k) =~= y.filter(f));
                        }
                        return Err(e);
                    },
                    Ok(()) => {},
                }
            }
            j = j + 1;
        }
        assert(cands@.take(cands.len() as int) =~= cands@);
        i = i + 1;
    }
    Ok(())
}

/// Whether the side to move has at least one legal move; stops at the first one found.
pub fn any_legal_moves(state: &BoardState) -> (r: bool)
    ensures
        r == (legal_moves(state@).len() > 0),
{
    let mut sink = ();
    gen_legal_moves(&mut sink, state).is_err()
}

/// All legal moves of the side to move, in generation order.
pub fn get_all_moves(state: &BoardState) -> (r: Vec<Move>)
    ensures
        r@ == legal_moves(state@),
{
    let mut v: Vec<Move> = Vec::new();
    let res = gen_legal_moves(&mut v, state);
    assert(res is Ok);
    assert(v@ =~= legal_moves(state@));
    v
}

/// The legal moves of the side to move, in generation order, each with the piece that makes
/// it.
pub fn possible_moves(state: &BoardState) -> (r: Vec<(Piece, Coords, Coords, Option<Piece>)>)
    ensures
        r@.len() == legal_moves(state@).len(),
        forall|i: int|
            0 <= i < r@.len() ==> {
                let m = #[trigger] legal_moves(state@)[i];
                r@[i] == (state@.at(m.0).spec_piece()->0, m.0, m.1, m.2)
            },
{
    let moves = get_all_moves(state);
    let mut out: Vec<(Piece, Coords, Coords, Option<Piece>)> = Vec::new();
    let mut i: usize = 0;
    while i < moves.len()
        invariant
            0 <= i <= moves.len(),
            moves@ == legal_moves(state@),
            out@.len() == i,
            forall|j: int|
                0 <= j < i ==> {
                    let m = #[trigger] legal_moves(state@)[j];
                    out@[j] == (state@.at(m.0).spec_piece()->0, m.0, m.1, m.2)
                },
        decreases moves.len() - i,
    {
        let (from, unto, promotion) = moves[i];
        proof {
            candidates(state@).lemma_filter_pred(legal_pred(state@), i as int);
        }
        match state.get(from) {
            Field::Occupied(_, p) => {
                out.push((p, from, unto, promotion));
            },
            Field::Empty => {
                return out;
            },
        }
        i = i + 1;
    }
    out
}

proof fn lemma_square_at_self(c: Coords)
    ensures
        square_at(c.file.idx(), c.rank.idx()) == c,
{
    crate::location::lemma_at_idx();
}

/// The offset from `from` to `unto` leads there.
proof fn lemma_offset_reaches(from: Coords, unto: Coords)
    ensures
        offset(
            from,
            unto.file.idx() - from.file.idx(),
            unto.rank.idx() - from.rank.idx(),
        ) == Some(unto),
{
    File::lemma_idx_injective(unto.file, unto.file);
    Rank::lemma_idx_injective(unto.rank, unto.rank);
    lemma_square_at_self(unto);
}

proof fn lemma_leap_contains(from: Coords, offs: Seq<(int, int)>, k: int, unto: Coords)
    requires
        0 <= k < offs.len(),
        offset(from, offs[k].0, offs[k].1) == Some(unto),
    ensures
        leap_moves(from, offs).contains((from, unto, None::<Piece>)),
    decreases offs.len(),
{
    let m = (from, unto, None::<Piece>);
    let rest = leap_moves(from, offs.drop_first());
    if k == 0 {
        assert((seq![m] + rest)[0] == m);
    } else {
        lemma_leap_contains(from, offs.drop_first(), k - 1, unto);
        let j = choose|j: int| 0 <= j < rest.len() && rest[j] == m;
        match offset(from, offs[0].0, offs[0].1) {
            Some(c) => {
                assert((seq![(from, c, None::<Piece>)] + rest)[j + 1] == m);
            },
            None => {},
        }
    }
}

proof fn lemma_knight_candidate(from: Coords, unto: Coords)
    requires
        knight_moves(from, unto),
    ensures
        leap_moves(from, knight_offsets()).contains((from, unto, None::<Piece>)),
{
    lemma_offset_reaches(from, unto);
    let dl = unto.file.idx() - from.file.idx();
    let dn = unto.rank.idx() - from.rank.idx();
    let o = knight_offsets();
    let k = if dl == 2 && dn == 1 {
        0
    } else if dl == 2 && dn == -1 {
        1
    } else if dl == 1 && dn == 2 {
        2
    } else if dl == 1 && dn == -2 {
        3
    } else if dl == -2 && dn == 1 {
        4
    } else if dl == -2 && dn == -1 {
        5
    } else if dl == -1 && dn == 2 {
        6
    } else {
        7
    };
    assert(o[k] == (dl, dn));
    lemma_leap_contains(from, o, k, unto);
}

proof fn lemma_contains_concat(a: Seq<Move>, b: Seq<Move>, m: Move)
    requires
        a.contains(m) || b.contains(m),
    ensures
        (a + b).contains(m),
{
    if a.contains(m) {
        let i = choose|i: int| 0 <= i < a.len() && a[i] == m;
        assert((a + b)[i] == m);
    } else {
        let i = choose|i: int| 0 <= i < b.len() && b[i] == m;
        assert((a + b)[a.len() + i] == m);
    }
}

proof fn lemma_king_candidate(p: Position, from: Coords, unto: Coords, taking: bool)
    requires
        from != unto,
        king_moves(p, p.side_to_move, from, unto, taking),
    ensures
        leap_moves(from, king_offsets()).contains((from, unto, None::<Piece>)),
{
    lemma_offset_reaches(from, unto);
    lemma_square_at_self(from);
    let dl = unto.file.idx() - from.file.idx();
    let dn = unto.rank.idx() - from.rank.idx();
    if dl == 0 && dn == 0 {
        crate::location::lemma_at_idx();
        File::lemma_idx_injective(from.file, unto.file);
        Rank::lemma_idx_injective(from.rank, unto.rank);
    }
    let o = king_offsets();
    let k = if dl == 1 && dn == 0 {
        0
    } else if dl == -1 && dn == 0 {
        1
    } else if dl == 0 && dn == 1 {
        2
    } else if dl == 0 && dn == -1 {
        3
    } else if dl == 1 && dn == 1 {
        4
    } else if dl == 1 && dn == -1 {
        5
    } else if dl == -1 && dn == 1 {
        6
    } else if dl == -1 && dn == -1 {
        7
    } else if dl == 2 {
        8
    } else {
        9
    };
    assert(o[k] == (dl, dn));
    lemma_leap_contains(from, o, k, unto);
}

proof fn lemma_pawn_candidate(p: Position, from: Coords, unto: Coords, promotion: Option<Piece>, taking: bool)
    requires
        from != unto,
        p.at(from) == Field::Occupied(p.side_to_move, Piece::Pawn),
        pawn_moves(p, p.side_to_move, from, unto, taking),
        promotion_ok(p, from, unto, promotion),
    ensures
        pawn_moves_from(from, p.side_to_move).contains((from, unto, promotion)),
{
    lemma_offset_reaches(from, unto);
    let f = forwards(p.side_to_move);
    let dl = unto.file.idx() - from.file.idx();
    let dn = unto.rank.idx() - from.rank.idx();
    let m = (from, unto, promotion);
    let g = pawn_group(from, Some(unto));
    if unto.rank.idx() == 0 || unto.rank.idx() == 7 {
        let x = promotion->0;
        let k = if x == Piece::Queen {
            0
        } else if x == Piece::Knight {
            1
        } else if x == Piece::Rook {
            2
        } else {
            3
        };
        assert(g[k] == m);
    } else {
        assert(g[0] == m);
    }
    assert(g.contains(m));
    let g1 = pawn_group(from, offset(from, 0, f));
    let g2 = pawn_group(from, offset(from, 0, 2 * f));
    let g3 = pawn_group(from, offset(from, 1, f));
    let g4 = pawn_group(from, offset(from, -1, f));
    if from.file != unto.file {
        if dl == 1 {
            assert(g3 == g);
            lemma_contains_concat(g1 + g2, g3, m);
        } else {
            assert(g4 == g);
        }
    } else {
        File::lemma_idx_injective(from.file, unto.file);
        if dn == f {
            assert(g1 == g);
        } else {
            assert(g2 == g);
        }
        lemma_contains_concat(g1, g2, m);
        lemma_contains_concat(g1 + g2, g3, m);
    }
    lemma_contains_concat(g1 + g2 + g3, g4, m);
}

proof fn lemma_ray_geometry(from: Coords, unto: Coords, k: int)
    requires
        ({
            let al = abs(unto.file.idx() - from.file.idx());
            let an = abs(unto.rank.idx() - from.rank.idx());
            al == an || al == 0 || an == 0
        }),
        1 <= k <= vstd::math::max(
            abs(unto.file.idx() - from.file.idx()),
            abs(unto.rank.idx() - from.rank.idx()),
        ),
    ensures
        ({
            let dl = unto.file.idx() - from.file.idx();
            let dn = unto.rank.idx() - from.rank.idx();
            let fl = from.file.idx() + step(k, sgn(dl));
            let rk = from.rank.idx() + step(k, sgn(dn));
            &&& 0 <= fl < 8
            &&& 0 <= rk < 8
            &&& k < 8
            &&& (k == vstd::math::max(abs(dl), abs(dn)) ==> step(k, sgn(dl)) == dl && step(k, sgn(dn)) == dn)
        }),
{
    File::lemma_idx_injective(from.file, unto.file);
    Rank::lemma_idx_injective(from.rank, unto.rank);
}

#[verifier::rlimit(60)]
proof fn lemma_ray_reaches(p: Position, from: Coords, unto: Coords, k: int)
    requires
        from != unto,
        slides(p, from, unto, true, true),
        1 <= k <= vstd::math::max(
            abs(unto.file.idx() - from.file.idx()),
            abs(unto.rank.idx() - from.rank.idx()),
        ),
    ensures
        ray_moves(
            p,
            from,
            sgn(unto.file.idx() - from.file.idx()),
            sgn(unto.rank.idx() - from.rank.idx()),
            k,
        ).contains((from, unto, None::<Piece>)),
    decreases 8 - k,
{
    let dl = unto.file.idx() - from.file.idx();
    let dn = unto.rank.idx() - from.rank.idx();
    let dist = vstd::math::max(abs(dl), abs(dn));
    let m = (from, unto, None::<Piece>);
    lemma_ray_geometry(from, unto, k);
    let c = ray_square(from, unto, k);
    assert(offset(from, step(k, sgn(dl)), step(k, sgn(dn))) == Some(c));
    let rest = ray_moves(p, from, sgn(dl), sgn(dn), k + 1);
    if k == dist {
        lemma_offset_reaches(from, unto);
        assert(c == unto);
        assert(ray_moves(p, from, sgn(dl), sgn(dn), k)[0] == m);
    } else {
        assert(p.at(ray_square(from, unto, k)) is Empty);
        lemma_ray_reaches(p, from, unto, k + 1);
        let j = choose|j: int| 0 <= j < rest.len() && rest[j] == m;
        assert((seq![(from, c, None::<Piece>)] + rest)[j + 1] == m);
    }
}

proof fn lemma_rays_contains(p: Position, from: Coords, dirs: Seq<(int, int)>, k: int, m: Move)
    requires
        0 <= k < dirs.len(),
        ray_moves(p, from, dirs[k].0, dirs[k].1, 1).contains(m),
    ensures
        rays(p, from, dirs).contains(m),
    decreases dirs.len(),
{
    if k == 0 {
        lemma_contains_concat(
            ray_moves(p, from, dirs[0].0, dirs[0].1, 1),
            rays(p, from, dirs.drop_first()),
            m,
        );
    } else {
        lemma_rays_contains(p, from, dirs.drop_first(), k - 1, m);
        lemma_contains_concat(
            ray_moves(p, from, dirs[0].0, dirs[0].1, 1),
            rays(p, from, dirs.drop_first()),
            m,
        );
    }
}

proof fn lemma_slide_candidate(p: Position, from: Coords, unto: Coords, piece: Piece)
    requires
        from != unto,
        piece == Piece::Bishop || piece == Piece::Rook || piece == Piece::Queen,
        slides(
            p,
            from,
            unto,
            piece == Piece::Bishop || piece == Piece::Queen,
            piece == Piece::Rook || piece == Piece::Queen,
        ),
    ensures
        rays(p, from, slide_dirs(piece)).contains((from, unto, None::<Piece>)),
{
    let dl = unto.file.idx() - from.file.idx();
    let dn = unto.rank.idx() - from.rank.idx();
    File::lemma_idx_injective(from.file, unto.file);
    Rank::lemma_idx_injective(from.rank, unto.rank);
    lemma_ray_reaches(p, from, unto, 1);
    let d = (sgn(dl), sgn(dn));
    let dirs = slide_dirs(piece);
    let straight = if d == (1int, 0int) {
        0int
    } else if d == (-1int, 0int) {
        1
    } else if d == (0int, 1int) {
        2
    } else if d == (0int, -1int) {
        3
    } else {
        -1
    };
    let diagonal = if d == (1int, 1int) {
        0int
    } else if d == (1int, -1int) {
        1
    } else if d == (-1int, 1int) {
        2
    } else if d == (-1int, -1int) {
        3
    } else {
        -1
    };
    let k = if piece == Piece::Bishop {
        diagonal
    } else if piece == Piece::Rook {
        straight
    } else if straight >= 0 {
        straight
    } else {
        4 + diagonal
    };
    assert(0 <= k < dirs.len() && dirs[k] == d);
    lemma_rays_contains(p, from, dirs, k, (from, unto, None::<Piece>));
}

proof fn lemma_square_candidates_complete(p: Position, from: Coords, unto: Coords, promotion: Option<Piece>)
    requires
        pseudo_legal(p, p.side_to_move, from, unto),
        promotion_ok(p, from, unto, promotion),
    ensures
        square_candidates(p, from).contains((from, unto, promotion)),
{
    let taking = p.at(unto) is Occupied;
    match p.at(from) {
        Field::Occupied(c, piece) => {
            match piece {
                Piece::Pawn => lemma_pawn_candidate(p, from, unto, promotion, taking),
                Piece::Knight => lemma_knight_candidate(from, unto),
                Piece::King => lemma_king_candidate(p, from, unto, taking),
                _ => lemma_slide_candidate(p, from, unto, piece),
            }
        },
        Field::Empty => {},
    }
}

proof fn lemma_below_contains(p: Position, i: int, j: int, m: Move)
    requires
        0 <= j < i,
        square_candidates(p, square_of_index(j)).contains(m),
    ensures
        candidates_below(p, i).contains(m),
    decreases i,
{
    if j == i - 1 {
        lemma_contains_concat(candidates_below(p, i - 1), square_candidates(p, square_of_index(j)), m);
    } else {
        lemma_below_contains(p, i - 1, j, m);
        lemma_contains_concat(candidates_below(p, i - 1), square_candidates(p, square_of_index(i - 1)), m);
    }
}

/// The generator misses no legal move: every legal move is among `legal_moves`.
pub proof fn lemma_generator_complete(p: Position, from: Coords, unto: Coords, promotion: Option<Piece>)
    requires
        legal(p, from, unto, promotion),
    ensures
        legal_moves(p).contains((from, unto, promotion)),
{
    let m = (from, unto, promotion);
    lemma_square_candidates_complete(p, from, unto, promotion);
    from.lemma_idx();
    lemma_below_contains(p, 64, from.idx(), m);
    let c = candidates(p);
    let i = choose|i: int| 0 <= i < c.len() && c[i] == m;
    c.lemma_filter_contains(legal_pred(p), i);
}

/// The generator yields only legal moves.
pub proof fn lemma_generator_sound(p: Position, i: int)
    requires
        0 <= i < legal_moves(p).len(),
    ensures
        is_legal(p, legal_moves(p)[i]),
{
    candidates(p).lemma_filter_pred(legal_pred(p), i);
}

} // verus!
