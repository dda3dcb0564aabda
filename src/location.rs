use vstd::prelude::*;
use vstd::string::StringSliceAdditionalSpecFns;

verus! {

/// A column of the board, `a` to `h`.
#[derive(Debug, Copy, Clone, PartialEq, Eq, PartialOrd, Ord, Hash, Structural)]
pub enum File {
    A,
    B,
    C,
    D,
    E,
    F,
    G,
    H,
}

/// A row of the board, `1` to `8`.
#[derive(Debug, Copy, Clone, PartialEq, Eq, PartialOrd, Ord, Hash, Structural)]
pub enum Rank {
    N1,
    N2,
    N3,
    N4,
    N5,
    N6,
    N7,
    N8,
}

impl File {
    /// The file's distance from the `a` file.
    pub open spec fn idx(self) -> int {
        match self {
            File::A => 0,
            File::B => 1,
            File::C => 2,
            File::D => 3,
            File::E => 4,
            File::F => 5,
            File::G => 6,
            File::H => 7,
        }
    }

    pub proof fn lemma_idx_injective(a: File, b: File)
        ensures
            a.idx() == b.idx() <==> a == b,
            0 <= a.idx() < 8,
    {
    }

    pub fn new(i: u8) -> (r: Option<File>)
        ensures
            r.is_some() <==> i < 8,
            r.is_some() ==> r.unwrap().idx() == i,
    {
        match i {
            0 => Some(File::A),
            1 => Some(File::B),
            2 => Some(File::C),
            3 => Some(File::D),
            4 => Some(File::E),
            5 => Some(File::F),
            6 => Some(File::G),
            7 => Some(File::H),
            _ => None,
        }
    }

    /// A file letter, `a` to `h`.
    pub fn from_char(c: char) -> (r: Option<File>)
        ensures
            r == file_of_char(c),
    {
        if 'a' <= c && c <= 'h' {
            File::new((c as u32 - 'a' as u32) as u8)
        } else {
            None
        }
    }

    pub fn from_i8(i: i8) -> (r: Option<File>)
        ensures
            r.is_some() <==> 0 <= i < 8,
            r.is_some() ==> r.unwrap().idx() == i,
    {
        if i < 0 {
            None
        } else {
            File::new(i as u8)
        }
    }

    pub fn i8(self) -> (r: i8)
        ensures
            r == self.idx(),
            0 <= r < 8,
    {
        match self {
            File::A => 0,
            File::B => 1,
            File::C => 2,
            File::D => 3,
            File::E => 4,
            File::F => 5,
            File::G => 6,
            File::H => 7,
        }
    }

    /// The lower-case letter that names the file.
    pub fn to_char(self) -> (r: char)
        ensures
            r == file_char(self.idx()),
    {
        match self {
            File::A => 'a',
            File::B => 'b',
            File::C => 'c',
            File::D => 'd',
            File::E => 'e',
            File::F => 'f',
            File::G => 'g',
            File::H => 'h',
        }
    }
}

/// The file named by a letter `a`–`h`.
pub open spec fn file_of_char(c: char) -> Option<File> {
    if 'a' <= c <= 'h' {
        Some(file_at(c as int - 'a' as int))
    } else {
        None
    }
}

/// The file at distance `i` from the `a` file (`i` in `0..8`).
pub open spec fn file_at(i: int) -> File {
    if i == 0 {
        File::A
    } else if i == 1 {
        File::B
    } else if i == 2 {
        File::C
    } else if i == 3 {
        File::D
    } else if i == 4 {
        File::E
    } else if i == 5 {
        File::F
    } else if i == 6 {
        File::G
    } else {
        File::H
    }
}

/// The rank at distance `i` from the first rank (`i` in `0..8`).
pub open spec fn rank_at(i: int) -> Rank {
    if i == 0 {
        Rank::N1
    } else if i == 1 {
        Rank::N2
    } else if i == 2 {
        Rank::N3
    } else if i == 3 {
        Rank::N4
    } else if i == 4 {
        Rank::N5
    } else if i == 5 {
        Rank::N6
    } else if i == 6 {
        Rank::N7
    } else {
        Rank::N8
    }
}

pub open spec fn file_char(i: int) -> char {
    ('a' as int + i) as char
}

pub open spec fn rank_char(i: int) -> char {
    ('1' as int + i) as char
}

/// The rank named by a digit `1`–`8`.
pub open spec fn rank_of_char(c: char) -> Option<Rank> {
    if '1' <= c <= '8' {
        Some(rank_at(c as int - '1' as int))
    } else {
        None
    }
}

impl Rank {
    /// The rank's distance from the first rank.
    pub open spec fn idx(self) -> int {
        match self {
            Rank::N1 => 0,
            Rank::N2 => 1,
            Rank::N3 => 2,
            Rank::N4 => 3,
            Rank::N5 => 4,
            Rank::N6 => 5,
            Rank::N7 => 6,
            Rank::N8 => 7,
        }
    }

    pub proof fn lemma_idx_injective(a: Rank, b: Rank)
        ensures
            a.idx() == b.idx() <==> a == b,
            0 <= a.idx() < 8,
    {
    }

    pub fn new(i: u8) -> (r: Option<Rank>)
        ensures
            r.is_some() <==> i < 8,
            r.is_some() ==> r.unwrap().idx() == i,
    {
        match i {
            0 => Some(Rank::N1),
            1 => Some(Rank::N2),
            2 => Some(Rank::N3),
            3 => Some(Rank::N4),
            4 => Some(Rank::N5),
            5 => Some(Rank::N6),
            6 => Some(Rank::N7),
            7 => Some(Rank::N8),
            _ => None,
        }
    }

    /// A rank digit.
    pub fn from_char(c: char) -> (r: Option<Rank>)
        ensures
            r == rank_of_char(c),
    {
        if '1' <= c && c <= '8' {
            Rank::new((c as u32 - '1' as u32) as u8)
        } else {
            None
        }
    }

    pub fn from_i8(i: i8) -> (r: Option<Rank>)
        ensures
            r.is_some() <==> 0 <= i < 8,
            r.is_some() ==> r.unwrap().idx() == i,
    {
        if i < 0 {
            None
        } else {
            Rank::new(i as u8)
        }
    }

    pub fn i8(self) -> (r: i8)
        ensures
            r == self.idx(),
            0 <= r < 8,
    {
        match self {
            Rank::N1 => 0,
            Rank::N2 => 1,
            Rank::N3 => 2,
            Rank::N4 => 3,
            Rank::N5 => 4,
            Rank::N6 => 5,
            Rank::N7 => 6,
            Rank::N8 => 7,
        }
    }

    /// The digit that names the rank.
    pub fn to_char(self) -> (r: char)
        ensures
            r == rank_char(self.idx()),
    {
        match self {
            Rank::N1 => '1',
            Rank::N2 => '2',
            Rank::N3 => '3',
            Rank::N4 => '4',
            Rank::N5 => '5',
            Rank::N6 => '6',
            Rank::N7 => '7',
            Rank::N8 => '8',
        }
    }
}

/// A square of the board.
#[derive(Debug, Copy, Clone, PartialEq, Eq, PartialOrd, Ord, Hash, Structural)]
pub struct Coords {
    pub rank: Rank,
    pub file: File,
}

/// The square `df` files and `dr` ranks away from `c`, if it is on the board.
pub open spec fn offset(c: Coords, df: int, dr: int) -> Option<Coords> {
    if 0 <= c.file.idx() + df < 8 && 0 <= c.rank.idx() + dr < 8 {
        Some(square_at(c.file.idx() + df, c.rank.idx() + dr))
    } else {
        None
    }
}

pub open spec fn square_at(f: int, r: int) -> Coords {
    Coords { file: file_at(f), rank: rank_at(r) }
}

/// The square at raster index `i` (`a1` is 0, `h1` 7, `a2` 8, ...).
pub open spec fn square_of_index(i: int) -> Coords {
    square_at(i % 8, i / 8)
}

/// The square named by two bytes: a file letter and a rank digit.
pub open spec fn coords_of_bytes(b: Seq<u8>) -> Option<Coords> {
    if b.len() == 2 && file_of_char(b[0] as char) is Some && rank_of_char(b[1] as char) is Some {
        Some(Coords { file: file_of_char(b[0] as char)->0, rank: rank_of_char(b[1] as char)->0 })
    } else {
        None
    }
}

pub proof fn lemma_at_idx()
    ensures
        forall|i: int| 0 <= i < 8 ==> (#[trigger] file_at(i)).idx() == i,
        forall|i: int| 0 <= i < 8 ==> (#[trigger] rank_at(i)).idx() == i,
        forall|f: File| #[trigger] file_at(f.idx()) == f,
        forall|r: Rank| #[trigger] rank_at(r.idx()) == r,
{
}

impl Coords {
    /// The square's raster index: `a1` is 0, `h1` 7, `a2` 8, ..., `h8` 63.
    pub open spec fn idx(self) -> int {
        self.file.idx() + 8 * self.rank.idx()
    }

    pub proof fn lemma_idx(self)
        ensures
            0 <= self.idx() < 64,
            square_of_index(self.idx()) == self,
    {
        lemma_at_idx();
    }

    pub proof fn lemma_index_square(i: int)
        requires
            0 <= i < 64,
        ensures
            square_of_index(i).idx() == i,
    {
        lemma_at_idx();
    }

    pub fn new(l: File, n: Rank) -> (r: Coords)
        ensures
            r.file == l,
            r.rank == n,
    {
        Coords { file: l, rank: n }
    }

    /// The square at raster index `i`.
    pub fn from_index(i: u8) -> (r: Coords)
        requires
            i < 64,
        ensures
            r == square_of_index(i as int),
            r.idx() == i,
    {
        proof {
            Coords::lemma_index_square(i as int);
        }
        let f = File::new(i % 8).unwrap();
        let n = Rank::new(i / 8).unwrap();
        proof {
            lemma_at_idx();
            File::lemma_idx_injective(f, file_at((i % 8) as int));
            Rank::lemma_idx_injective(n, rank_at((i / 8) as int));
        }
        Coords { file: f, rank: n }
    }

    /// Reads a square written as a file letter and a rank digit, such as `e4`.
    pub fn from_str(s: &str) -> (r: Option<Coords>)
        ensures
            r == coords_of_bytes(s.spec_bytes()),
    {
        let b = s.as_bytes();
        if b.len() != 2 {
            return None;
        }
        let l = File::from_char(b[0] as char);
        let n = Rank::from_char(b[1] as char);
        match (l, n) {
            (Some(l), Some(n)) => Some(Coords { file: l, rank: n }),
            _ => None,
        }
    }

    pub fn f(self) -> (r: File)
        ensures
            r == self.file,
    {
        self.file
    }

    pub fn r(self) -> (r: Rank)
        ensures
            r == self.rank,
    {
        self.rank
    }

    /// The square `l` files and `n` ranks away, or `None` where that is off the board.
    pub fn add(self, l: i8, n: i8) -> (r: Option<Coords>)
        ensures
            r == offset(self, l as int, n as int),
    {
        let f = self.file.i8() as i16 + l as i16;
        let k = self.rank.i8() as i16 + n as i16;
        if 0 <= f && f < 8 && 0 <= k && k < 8 {
            let nf = File::new(f as u8).unwrap();
            let nr = Rank::new(k as u8).unwrap();
            proof {
                lemma_at_idx();
                File::lemma_idx_injective(nf, file_at(f as int));
                Rank::lemma_idx_injective(nr, rank_at(k as int));
            }
            Some(Coords { file: nf, rank: nr })
        } else {
            None
        }
    }

    pub fn i8_tuple(self) -> (r: (i8, i8))
        ensures
            r.0 == self.file.idx(),
            r.1 == self.rank.idx(),
    {
        (self.file.i8(), self.rank.i8())
    }

    pub fn from_u8_tuple(l: i8, n: i8) -> (r: Option<Coords>)
        ensures
            r.is_some() <==> 0 <= l < 8 && 0 <= n < 8,
            r.is_some() ==> r.unwrap() == square_at(l as int, n as int),
    {
        match (File::from_i8(l), Rank::from_i8(n)) {
            (Some(f), Some(k)) => {
                proof {
                    lemma_at_idx();
                    File::lemma_idx_injective(f, file_at(l as int));
                    Rank::lemma_idx_injective(k, rank_at(n as int));
                }
                Some(Coords { file: f, rank: k })
            },
            _ => None,
        }
    }

    /// The file and rank distance from `other` to `self`.
    pub fn sub(self, other: Coords) -> (r: (i8, i8))
        ensures
            r.0 == self.file.idx() - other.file.idx(),
            r.1 == self.rank.idx() - other.rank.idx(),
    {
        (self.file.i8() - other.file.i8(), self.rank.i8() - other.rank.i8())
    }

    pub fn into_u8(self) -> (r: u8)
        ensures
            r == self.idx(),
    {
        (self.file.i8() + 8 * self.rank.i8()) as u8
    }
}

/// The ranks from `start` (inclusive) up to `end` (exclusive), walked from either end.
pub struct RankRange {
    start: u8,
    end: u8,
}

impl RankRange {
    pub closed spec fn remaining(&self) -> Seq<Rank> {
        Seq::new((self.end - self.start) as nat, |i: int| rank_at(self.start + i))
    }

    pub closed spec fn wf(&self) -> bool {
        self.start <= self.end <= 8
    }

    pub fn full() -> (r: RankRange)
        ensures
            r.wf(),
            r.remaining() == Seq::new(8, |i: int| rank_at(i)),
    {
        let r = RankRange { start: 0, end: 8 };
        assert(r.remaining() =~= Seq::new(8, |i: int| rank_at(i)));
        r
    }

    /// Takes the lowest rank that is left.
    pub fn next(&mut self) -> (r: Option<Rank>)
        requires
            old(self).wf(),
        ensures
            final(self).wf(),
            old(self).remaining().len() == 0 ==> r.is_none() && final(self).remaining() == old(
                self,
            ).remaining(),
            old(self).remaining().len() > 0 ==> r == Some(old(self).remaining()[0])
                && final(self).remaining() == old(self).remaining().drop_first(),
    {
        if self.start < self.end {
            let r = Rank::new(self.start).unwrap();
            proof {
                lemma_at_idx();
                Rank::lemma_idx_injective(r, rank_at(self.start as int));
            }
            self.start = self.start + 1;
            assert(self.remaining() =~= old(self).remaining().drop_first());
            Some(r)
        } else {
            None
        }
    }

    /// Takes the highest rank that is left.
    pub fn next_back(&mut self) -> (r: Option<Rank>)
        requires
            old(self).wf(),
        ensures
            final(self).wf(),
            old(self).remaining().len() == 0 ==> r.is_none() && final(self).remaining() == old(
                self,
            ).remaining(),
            old(self).remaining().len() > 0 ==> r == Some(old(self).remaining().last())
                && final(self).remaining() == old(self).remaining().drop_last(),
    {
        if self.start < self.end {
            self.end = self.end - 1;
            let r = Rank::new(self.end).unwrap();
            proof {
                lemma_at_idx();
                Rank::lemma_idx_injective(r, rank_at(self.end as int));
            }
            assert(self.remaining() =~= old(self).remaining().drop_last());
            Some(r)
        } else {
            None
        }
    }
}

/// The files from `start` (inclusive) up to `end` (exclusive), in order.
pub struct FileRange {
    start: u8,
    end: u8,
}

impl FileRange {
    pub closed spec fn remaining(&self) -> Seq<File> {
        Seq::new((self.end - self.start) as nat, |i: int| file_at(self.start + i))
    }

    pub closed spec fn wf(&self) -> bool {
        self.start <= self.end <= 8
    }

    pub fn full() -> (r: FileRange)
        ensures
            r.wf(),
            r.remaining() == Seq::new(8, |i: int| file_at(i)),
    {
        let r = FileRange { start: 0, end: 8 };
        assert(r.remaining() =~= Seq::new(8, |i: int| file_at(i)));
        r
    }

    /// Takes the lowest file that is left.
    pub fn next(&mut self) -> (r: Option<File>)
        requires
            old(self).wf(),
        ensures
            final(self).wf(),
            old(self).remaining().len() == 0 ==> r.is_none() && final(self).remaining() == old(
                self,
            ).remaining(),
            old(self).remaining().len() > 0 ==> r == Some(old(self).remaining()[0])
                && final(self).remaining() == old(self).remaining().drop_first(),
    {
        if self.start < self.end {
            let r = File::new(self.start).unwrap();
            proof {
                lemma_at_idx();
                File::lemma_idx_injective(r, file_at(self.start as int));
            }
            self.start = self.start + 1;
            assert(self.remaining() =~= old(self).remaining().drop_first());
            Some(r)
        } else {
            None
        }
    }
}

} // verus!
