use vstd::prelude::*;

use crate::location::{Coords, square_of_index};

verus! {

#[derive(Debug, Copy, Clone, PartialEq, Eq, Hash, Structural)]
pub enum Piece {
    Pawn,
    Rook,
    Knight,
    Bishop,
    Queen,
    King,
}

#[derive(Debug, Copy, Clone, PartialEq, Eq, Hash, Structural)]
pub enum Colour {
    White,
    Black,
}

impl Colour {
    pub open spec fn spec_other(self) -> Colour {
        match self {
            Colour::White => Colour::Black,
            Colour::Black => Colour::White,
        }
    }

    /// The opposing colour.
    #[verifier::when_used_as_spec(spec_other)]
    pub fn other(self) -> (r: Colour)
        ensures
            r == self.spec_other(),
    {
        match self {
            Colour::White => Colour::Black,
            Colour::Black => Colour::White,
        }
    }
}

/// What stands on a square.
#[derive(Debug, Copy, Clone, PartialEq, Eq, Hash, Structural)]
pub enum Field {
    Empty,
    Occupied(Colour, Piece),
}

impl Field {
    pub fn is_empty(&self) -> (r: bool)
        ensures
            r == (*self is Empty),
    {
        match self {
            Field::Empty => true,
            Field::Occupied(_, _) => false,
        }
    }

    pub fn is_occupied(&self) -> (r: bool)
        ensures
            r == (*self is Occupied),
    {
        match self {
            Field::Empty => false,
            Field::Occupied(_, _) => true,
        }
    }

    pub open spec fn spec_piece(self) -> Option<Piece> {
        match self {
            Field::Empty => None,
            Field::Occupied(_, p) => Some(p),
        }
    }

    #[verifier::when_used_as_spec(spec_piece)]
    pub fn into_piece(self) -> (r: Option<Piece>)
        ensures
            r == self.spec_piece(),
    {
        match self {
            Field::Empty => None,
            Field::Occupied(_, p) => Some(p),
        }
    }
}

/// The piece that stands on `c` in the starting position.
pub open spec fn start_field(c: Coords) -> Field {
    let r = c.rank.idx();
    let f = c.file.idx();
    if r == 1 {
        Field::Occupied(Colour::White, Piece::Pawn)
    } else if r == 6 {
        Field::Occupied(Colour::Black, Piece::Pawn)
    } else if r == 0 {
        Field::Occupied(Colour::White, back_rank_piece(f))
    } else if r == 7 {
        Field::Occupied(Colour::Black, back_rank_piece(f))
    } else {
        Field::Empty
    }
}

/// The board of the starting position, in raster order.
pub open spec fn start_board() -> Seq<Field> {
    Seq::new(64, |i: int| start_field(square_of_index(i)))
}

/// The piece that starts on file `f` of its own back rank.
pub open spec fn back_rank_piece(f: int) -> Piece {
    if f == 0 || f == 7 {
        Piece::Rook
    } else if f == 1 || f == 6 {
        Piece::Knight
    } else if f == 2 || f == 5 {
        Piece::Bishop
    } else if f == 3 {
        Piece::Queen
    } else {
        Piece::King
    }
}

/// The 64 squares of a board, in raster order.
#[derive(Debug, Copy, Clone, Eq, Hash)]
pub struct Board([Field; 64]);

impl PartialEq for Board {
    fn eq(&self, o: &Board) -> (r: bool)
        ensures
            r == (self@ == o@),
    {
        let mut i: usize = 0;
        while i < 64
            invariant
                0 <= i <= 64,
                forall|j: int| 0 <= j < i ==> self.0@[j] == o.0@[j],
            decreases 64 - i,
        {
            if self.0[i] != o.0[i] {
                return false;
            }
            i = i + 1;
        }
        assert(self.0@ =~= o.0@);
        true
    }
}

impl vstd::std_specs::cmp::PartialEqSpecImpl for Board {
    open spec fn obeys_eq_spec() -> bool {
        true
    }

    open spec fn eq_spec(&self, o: &Board) -> bool {
        self@ == o@
    }
}

impl View for Board {
    type V = Seq<Field>;

    /// The squares' contents in raster order (see `Coords::idx`).
    closed spec fn view(&self) -> Seq<Field> {
        self.0@
    }
}

/// A board always has 64 squares.
pub broadcast proof fn lemma_board_len(b: Board)
    ensures
        #[trigger] b@.len() == 64,
{
}

/// Boards with the same contents are equal.
pub proof fn lemma_board_ext(a: Board, b: Board)
    requires
        a@ == b@,
    ensures
        a == b,
{
    assert(a.0 =~= b.0);
}

impl Board {
    /// What stands on `c`.
    pub open spec fn cell(self, c: Coords) -> Field {
        self@[c.idx()]
    }

    /// A board with nothing on it.
    pub fn empty() -> (r: Board)
        ensures
            r@ == Seq::new(64, |i: int| Field::Empty),
    {
        let r = Board([Field::Empty; 64]);
        assert(r@ =~= Seq::new(64, |i: int| Field::Empty));
        r
    }

    /// The board of the starting position.
    pub fn start() -> (r: Board)
        ensures
            r@ == start_board(),
    {
        let mut a = [Field::Empty; 64];
        let mut i: usize = 0;
        while i < 8
            invariant
                0 <= i <= 8,
                forall|j: int| 0 <= j < 64 ==> a@[j] == (if j < i {
                    start_field(square_of_index(j))
                } else if 8 <= j < 8 + i {
                    start_field(square_of_index(j))
                } else if 48 <= j < 48 + i {
                    start_field(square_of_index(j))
                } else if 56 <= j < 56 + i {
                    start_field(square_of_index(j))
                } else {
                    Field::Empty
                }),
            decreases 8 - i,
        {
            let p = back_piece(i);
            a[i] = Field::Occupied(Colour::White, p);
            a[8 + i] = Field::Occupied(Colour::White, Piece::Pawn);
            a[48 + i] = Field::Occupied(Colour::Black, Piece::Pawn);
            a[56 + i] = Field::Occupied(Colour::Black, p);
            proof {
                crate::location::lemma_at_idx();
                let k = i as int;
                assert(k % 8 == k && k / 8 == 0);
                assert((8 + k) % 8 == k && (8 + k) / 8 == 1);
                assert((48 + k) % 8 == k && (48 + k) / 8 == 6);
                assert((56 + k) % 8 == k && (56 + k) / 8 == 7);
            }
            i = i + 1;
        }
        let r = Board(a);
        assert(r@ =~= start_board());
        r
    }

    pub fn get(&self, coords: Coords) -> (r: Field)
        ensures
            r == self.cell(coords),
    {
        proof {
            coords.lemma_idx();
        }
        self.0[coords.into_u8() as usize]
    }

    /// Puts `field` on `coords` and returns what stood there.
    pub fn set(&mut self, coords: Coords, field: Field) -> (r: Field)
        ensures
            r == old(self)@[coords.idx()],
            final(self)@ == old(self)@.update(coords.idx(), field),
    {
        proof {
            coords.lemma_idx();
        }
        let i = coords.into_u8() as usize;
        let r = self.0[i];
        self.0[i] = field;
        r
    }
}

/// The piece that starts on file `f` of its own back rank.
fn back_piece(f: usize) -> (r: Piece)
    requires
        f < 8,
    ensures
        r == back_rank_piece(f as int),
{
    if f == 0 || f == 7 {
        Piece::Rook
    } else if f == 1 || f == 6 {
        Piece::Knight
    } else if f == 2 || f == 5 {
        Piece::Bishop
    } else if f == 3 {
        Piece::Queen
    } else {
        Piece::King
    }
}

} // verus!
