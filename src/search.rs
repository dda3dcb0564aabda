//! Negamax search with alpha-beta pruning, iterative deepening and a depth-tagged
//! transposition cache.
use vstd::prelude::*;

use crate::board::{Colour, Field, Piece};
use crate::boardstate::BoardState;
use crate::location::Coords;
use crate::eval::{eval, evaluate};
use crate::movegen::{Move, candidates, get_all_moves, legal_moves, legal_pred};
use crate::rules::{Position, apply_move};

verus! {

/// A bound beyond every score: `-UNBOUNDED` as alpha (or `UNBOUNDED` as beta) bounds nothing.
pub const UNBOUNDED: i64 = 1_000_000_001;

/// The most moves searched in one position.
pub const MAX_MOVES: usize = 200;

/// An entry of the transposition cache: a position, the depth its value was computed at,
/// and the value.
pub type CacheEntry = (BoardState, usize, i64);

/// The model of a cache: positions, depths and values.
pub type CacheModel = Seq<(Position, nat, int)>;

pub open spec fn cache_model(c: Seq<CacheEntry>) -> CacheModel {
    c.map_values(|e: CacheEntry| (e.0@, e.1 as nat, e.2 as int))
}

/// The index of the entry for `p` at or after index `i`, or -1.
pub open spec fn find_from(c: CacheModel, p: Position, i: int) -> int
    decreases c.len() - i,
{
    if i < 0 || i >= c.len() {
        -1
    } else if c[i].0 == p {
        i
    } else {
        find_from(c, p, i + 1)
    }
}

/// The index of the entry for `p`, or -1.
pub open spec fn find(c: CacheModel, p: Position) -> int {
    find_from(c, p, 0)
}

/// The cache after recording value `v` of `p` at depth `d`, in place of an earlier entry.
pub open spec fn store(c: CacheModel, p: Position, d: nat, v: int) -> CacheModel {
    let i = find(c, p);
    if i >= 0 {
        c.update(i, (p, d, v))
    } else {
        c.push((p, d, v))
    }
}

/// The moves searched in `p`: the first `MAX_MOVES` legal ones.
pub open spec fn searched_moves(p: Position) -> Seq<Move> {
    let l = legal_moves(p);
    if l.len() > MAX_MOVES {
        l.subrange(0, MAX_MOVES as int)
    } else {
        l
    }
}

/// The value of `p` searched `depth` plies deep within the bounds `alpha` and `beta`, and
/// the cache afterwards. A cached value counts only where it was computed at least as deep.
pub open spec fn search_value(
    p: Position,
    alpha: int,
    beta: int,
    depth: nat,
    c: CacheModel,
    max_nodes: nat,
) -> (int, CacheModel)
    decreases depth, 2nat, 0nat,
{
    let i = find(c, p);
    if i >= 0 && c[i].1 >= depth {
        (c[i].2, c)
    } else {
        let (v, c2) = search_inner_value(p, alpha, beta, depth, c, max_nodes);
        (v, store(c2, p, depth, v))
    }
}

/// The search below the cache: the static score at depth 0, once the cache holds
/// `max_nodes` positions, or where no move is left; else the best reply.
pub open spec fn search_inner_value(
    p: Position,
    alpha: int,
    beta: int,
    depth: nat,
    c: CacheModel,
    max_nodes: nat,
) -> (int, CacheModel)
    decreases depth, 1nat, 0nat,
{
    if depth == 0 || c.len() >= max_nodes || searched_moves(p).len() == 0 {
        (evaluate(p), c)
    } else {
        best_reply(p, searched_moves(p), 0, alpha, beta, depth, c, max_nodes)
    }
}

/// Negamax over the moves from index `k` on: `alpha` rises to the best reply and the loop
/// stops once it reaches `beta`.
pub open spec fn best_reply(
    p: Position,
    moves: Seq<Move>,
    k: int,
    alpha: int,
    beta: int,
    depth: nat,
    c: CacheModel,
    max_nodes: nat,
) -> (int, CacheModel)
    decreases depth, 0nat, moves.len() - k,
{
    if k < 0 || k >= moves.len() || depth == 0 {
        (alpha, c)
    } else {
        match apply_move(p, moves[k].0, moves[k].1, moves[k].2) {
            None => best_reply(p, moves, k + 1, alpha, beta, depth, c, max_nodes),
            Some((q, _)) => {
                let (v, c2) = search_value(q, -beta, -alpha, (depth - 1) as nat, c, max_nodes);
                let e = -v;
                if e > alpha {
                    if beta <= e {
                        (e, c2)
                    } else {
                        best_reply(p, moves, k + 1, e, beta, depth, c2, max_nodes)
                    }
                } else {
                    best_reply(p, moves, k + 1, alpha, beta, depth, c2, max_nodes)
                }
            },
        }
    }
}

/// Where `e` goes in the descending list `evals`: after every value at least as large, from
/// index `i` on.
pub open spec fn insert_pos(evals: Seq<int>, e: int, i: int) -> int
    decreases evals.len() - i,
{
    if i < 0 || i >= evals.len() || evals[i] < e {
        i
    } else {
        insert_pos(evals, e, i + 1)
    }
}

/// One pass over the root moves from index `k` on at `depth`: each is searched with the best
/// value so far as bound, and inserted into the descending lists `evals` and `ordered` after
/// the moves that scored at least as much.
pub open spec fn root_pass(
    p: Position,
    moves: Seq<Move>,
    k: int,
    depth: nat,
    evals: Seq<int>,
    ordered: Seq<Move>,
    c: CacheModel,
    max_nodes: nat,
) -> (Seq<int>, Seq<Move>, CacheModel)
    decreases moves.len() - k,
{
    if k < 0 || k >= moves.len() {
        (evals, ordered, c)
    } else {
        match apply_move(p, moves[k].0, moves[k].1, moves[k].2) {
            None => root_pass(p, moves, k + 1, depth, evals, ordered, c, max_nodes),
            Some((q, _)) => {
                let beta = if evals.len() == 0 {
                    UNBOUNDED as int
                } else {
                    -evals[0]
                };
                let (v, c2) = search_value(
                    q,
                    -UNBOUNDED,
                    beta,
                    (depth - 1) as nat,
                    c,
                    max_nodes,
                );
                let e = -v;
                let i = insert_pos(evals, e, 0);
                root_pass(
                    p,
                    moves,
                    k + 1,
                    depth,
                    evals.insert(i, e),
                    ordered.insert(i, moves[k]),
                    c2,
                    max_nodes,
                )
            },
        }
    }
}

/// Iterative deepening from `depth` up to `max_depth`: each pass orders the moves for the
/// next, and deepening stops once the cache holds more than `max_nodes` positions.
pub open spec fn deepen(
    p: Position,
    moves: Seq<Move>,
    e: int,
    depth: nat,
    max_depth: nat,
    c: CacheModel,
    max_nodes: nat,
) -> (int, Seq<Move>)
    decreases max_depth + 1 - depth,
{
    if depth > max_depth || depth == 0 {
        (e, moves)
    } else {
        let (evals, ordered, c2) = root_pass(
            p,
            moves,
            0,
            depth,
            Seq::empty(),
            Seq::empty(),
            c,
            max_nodes,
        );
        let e2 = if evals.len() > 0 {
            evals[0]
        } else {
            0
        };
        if c2.len() > max_nodes {
            (e2, ordered)
        } else {
            deepen(p, ordered, e2, depth + 1, max_depth, c2, max_nodes)
        }
    }
}

/// The best score and the legal moves from best to worst, after searching up to
/// `max_depth` plies. Without a search (`max_depth` 0) the score is 0 and the moves come in
/// generation order.
pub open spec fn ranked(p: Position, max_depth: nat, max_nodes: nat) -> (int, Seq<Move>) {
    deepen(p, legal_moves(p), 0, 1, max_depth, Seq::empty(), max_nodes)
}

pub open spec fn cache_bounded(c: Seq<CacheEntry>) -> bool {
    forall|i: int| 0 <= i < c.len() ==> -UNBOUNDED <= (#[trigger] c[i]).2 <= UNBOUNDED
}

/// The number of buckets of the cache's index.
pub const BUCKETS: usize = 4096;

/// A number that stands for what occupies a square.
pub open spec fn field_code(f: Field) -> int {
    match f {
        Field::Empty => 0,
        Field::Occupied(c, p) => (match p {
            Piece::Pawn => 1int,
            Piece::Rook => 2,
            Piece::Knight => 3,
            Piece::Bishop => 4,
            Piece::Queen => 5,
            Piece::King => 6,
        }) + if c == Colour::Black {
            6int
        } else {
            0
        },
    }
}

/// A digest of the squares below raster index `i`.
pub open spec fn digest_below(b: Seq<Field>, i: int) -> int
    decreases i,
{
    if i <= 0 {
        0
    } else {
        (digest_below(b, i - 1) * 13 + field_code(b[i - 1])) % 1_000_000_007
    }
}

/// The bucket of the cache's index in which a position is filed.
pub open spec fn bucket_of(p: Position) -> int {
    (digest_below(p.board, 64) * 2 + if p.side_to_move == Colour::White {
        0int
    } else {
        1
    }) % (BUCKETS as int)
}

fn field_code_of(f: Field) -> (r: u64)
    ensures
        r == field_code(f),
{
    match f {
        Field::Empty => 0,
        Field::Occupied(c, p) => {
            let k: u64 = match p {
                Piece::Pawn => 1,
                Piece::Rook => 2,
                Piece::Knight => 3,
                Piece::Bishop => 4,
                Piece::Queen => 5,
                Piece::King => 6,
            };
            if c == Colour::Black {
                k + 6
            } else {
                k
            }
        },
    }
}

fn bucket_index(state: &BoardState) -> (r: usize)
    ensures
        r == bucket_of(state@),
        r < BUCKETS,
{
    let ghost b = state@.board;
    let mut h: u64 = 0;
    let mut i: u8 = 0;
    while i < 64
        invariant
            0 <= i <= 64,
            b == state@.board,
            h == digest_below(b, i as int),
            h < 1_000_000_007,
        decreases 64 - i,
    {
        let code = field_code_of(state.board.get(Coords::from_index(i)));
        proof {
            Coords::lemma_index_square(i as int);
        }
        h = (h * 13 + code) % 1_000_000_007;
        i = i + 1;
    }
    let side: u64 = match state.side_to_move {
        Colour::White => 0,
        Colour::Black => 1,
    };
    ((h * 2 + side) % (BUCKETS as u64)) as usize
}

proof fn lemma_find_unique(m: CacheModel, p: Position, idx: int, k: int)
    requires
        0 <= k <= idx < m.len(),
        m[idx].0 == p,
        forall|j: int| 0 <= j < m.len() && j != idx ==> m[j].0 != p,
    ensures
        find_from(m, p, k) == idx,
    decreases idx - k,
{
    if k < idx {
        lemma_find_unique(m, p, idx, k + 1);
    }
}

proof fn lemma_find_found(m: CacheModel, p: Position, k: int)
    requires
        0 <= k,
        find_from(m, p, k) >= 0,
    ensures
        k <= find_from(m, p, k) < m.len(),
        m[find_from(m, p, k)].0 == p,
    decreases m.len() - k,
{
    if k < m.len() && m[k].0 != p {
        lemma_find_found(m, p, k + 1);
    }
}

proof fn lemma_find_absent(m: CacheModel, p: Position, k: int)
    requires
        0 <= k <= m.len(),
        forall|j: int| 0 <= j < m.len() ==> m[j].0 != p,
    ensures
        find_from(m, p, k) == -1,
    decreases m.len() - k,
{
    if k < m.len() {
        lemma_find_absent(m, p, k + 1);
    }
}

/// The transposition cache: its entries, each for a different position, and an index from
/// buckets of positions to the entries filed there.
struct Transpositions {
    entries: Vec<CacheEntry>,
    buckets: Vec<Vec<usize>>,
}

impl Transpositions {
    spec fn model(&self) -> CacheModel {
        cache_model(self.entries@)
    }

    spec fn ok(&self) -> bool {
        &&& cache_bounded(self.entries@)
        &&& self.buckets@.len() == BUCKETS
        &&& forall|i: int, j: int|
            0 <= i < self.entries@.len() && 0 <= j < self.entries@.len() && i != j
                ==> self.entries@[i].0@ != self.entries@[j].0@
        &&& forall|i: int|
            0 <= i < self.entries@.len() ==> self.buckets@[bucket_of(
                (#[trigger] self.entries@[i]).0@,
            )]@.contains(i as usize)
        &&& forall|b: int, j: int|
            0 <= b < BUCKETS && 0 <= j < self.buckets@[b]@.len() ==> (#[trigger] self.buckets@[b]@[j])
                < self.entries@.len()
    }

    fn new() -> (r: Transpositions)
        ensures
            r.ok(),
            r.model() == Seq::<(Position, nat, int)>::empty(),
    {
        let mut buckets: Vec<Vec<usize>> = Vec::new();
        let mut i: usize = 0;
        while i < BUCKETS
            invariant
                0 <= i <= BUCKETS,
                buckets@.len() == i,
                forall|b: int| 0 <= b < i ==> (#[trigger] buckets@[b])@.len() == 0,
            decreases BUCKETS - i,
        {
            buckets.push(Vec::new());
            i = i + 1;
        }
        let r = Transpositions { entries: Vec::new(), buckets };
        assert(r.model() =~= Seq::<(Position, nat, int)>::empty());
        r
    }

    fn len(&self) -> (r: usize)
        ensures
            r == self.model().len(),
    {
        self.entries.len()
    }

    /// The depth and value recorded in entry `i`.
    fn entry(&self, i: usize) -> (r: (usize, i64))
        requires
            i < self.model().len(),
        ensures
            r.0 == self.model()[i as int].1,
            r.1 == self.model()[i as int].2,
    {
        (self.entries[i].1, self.entries[i].2)
    }

    /// The index of the entry for `state`.
    fn find(&self, state: &BoardState) -> (r: Option<usize>)
        requires
            self.ok(),
        ensures
            match r {
                Some(i) => i < self.model().len() && find(self.model(), state@) == i,
                None => find(self.model(), state@) == -1,
            },
    {
        let b = bucket_index(state);
        let bucket = &self.buckets[b];
        let mut j: usize = 0;
        while j < bucket.len()
            invariant
                0 <= j <= bucket@.len(),
                self.ok(),
                b == bucket_of(state@),
                bucket@ == self.buckets@[b as int]@,
                forall|k: int| 0 <= k < j ==> self.entries@[#[trigger] bucket@[k] as int].0@ != state@,
            decreases bucket.len() - j,
        {
            let i = bucket[j];
            assert(i < self.entries@.len());
            if self.entries[i].0 == *state {
                proof {
                    lemma_find_unique(self.model(), state@, i as int, 0);
                }
                return Some(i);
            }
            j = j + 1;
        }
        proof {
            assert(self.entries@.len() == self.entries.len());
            assert forall|i: int| 0 <= i < self.model().len() implies self.model()[i].0 != state@ by {
                assert(self.model()[i].0 == self.entries@[i].0@);
                assert((i as usize) as int == i);
                if self.entries@[i].0@ == state@ {
                    assert(self.buckets@[bucket_of(self.entries@[i].0@)]@.contains(i as usize));
                    let k = choose|k: int| 0 <= k < bucket@.len() && bucket@[k] == i as usize;
                    assert(self.entries@[bucket@[k] as int].0@ != state@);
                }
            }
            lemma_find_absent(self.model(), state@, 0);
        }
        None
    }

    /// Records the value `v` of `state` at `depth`, in place of an earlier entry.
    fn store(&mut self, state: &BoardState, depth: usize, v: i64)
        requires
            old(self).ok(),
            -UNBOUNDED <= v <= UNBOUNDED,
        ensures
            final(self).model() == store(old(self).model(), state@, depth as nat, v as int),
            final(self).ok(),
    {
        match self.find(state) {
            Some(i) => {
                proof {
                    lemma_find_found(old(self).model(), state@, 0);
                    assert(old(self).model()[i as int].0 == old(self).entries@[i as int].0@);
                }
                self.entries[i] = (*state, depth, v);
                assert(self.model() =~= store(old(self).model(), state@, depth as nat, v as int));
                assert forall|k: int| 0 <= k < self.entries@.len() implies self.buckets@[bucket_of(
                    (#[trigger] self.entries@[k]).0@,
                )]@.contains(k as usize) by {
                    assert(self.entries@[k].0@ == old(self).entries@[k].0@);
                    assert(old(self).buckets@[bucket_of(old(self).entries@[k].0@)]@.contains(k as usize));
                }
                assert forall|a: int, c: int|
                    0 <= a < self.entries@.len() && 0 <= c < self.entries@.len() && a != c
                        implies self.entries@[a].0@ != self.entries@[c].0@ by {
                    assert(self.entries@[a].0@ == old(self).entries@[a].0@);
                    assert(self.entries@[c].0@ == old(self).entries@[c].0@);
                }
            },
            None => {
                let n = self.entries.len();
                let b = bucket_index(state);
                proof {
                    assert forall|i: int| 0 <= i < old(self).model().len() implies old(self).model()[i].0 != state@ by {
                        if old(self).model()[i].0 == state@ {
                            lemma_find_unique(old(self).model(), state@, i, 0);
                        }
                    }
                    assert forall|i: int| 0 <= i < old(self).entries@.len() implies old(self).entries@[i].0@ != state@ by {
                        assert(old(self).model()[i].0 == old(self).entries@[i].0@);
                    }
                }
                self.entries.push((*state, depth, v));
                let ghost old_bucket = self.buckets@[b as int]@;
                let ghost old_buckets = self.buckets@;
                self.buckets[b].push(n);
                assert(self.model() =~= store(old(self).model(), state@, depth as nat, v as int));
                assert forall|k: int| 0 <= k < self.entries@.len() implies self.buckets@[bucket_of(
                    (#[trigger] self.entries@[k]).0@,
                )]@.contains(k as usize) by {
                    if k < n {
                        assert(old(self).buckets@[bucket_of(old(self).entries@[k].0@)]@.contains(k as usize));
                        if bucket_of(self.entries@[k].0@) == b {
                            let w = choose|w: int| 0 <= w < old_bucket.len() && old_bucket[w] == k as usize;
                            assert(self.buckets@[b as int]@[w] == k as usize);
                        }
                    } else {
                        assert(self.buckets@[b as int]@[old_bucket.len() as int] == n);
                    }
                }
                assert forall|bb: int, j: int|
                    0 <= bb < BUCKETS && 0 <= j < self.buckets@[bb]@.len() implies (#[trigger] self.buckets@[bb]@[j])
                        < self.entries@.len() by {
                    if bb != b {
                        assert(self.buckets@[bb] == old_buckets[bb]);
                    } else if j < old_bucket.len() {
                        assert(self.buckets@[bb]@[j] == old_bucket[j]);
                    }
                }
            },
        }
    }
}

fn search(
    state: &BoardState,
    alpha: i64,
    beta: i64,
    depth: usize,
    cache: &mut Transpositions,
    max_nodes: usize,
) -> (r: i64)
    requires
        -UNBOUNDED <= alpha <= UNBOUNDED,
        -UNBOUNDED <= beta <= UNBOUNDED,
        old(cache).ok(),
    ensures
        (r as int, final(cache).model()) == search_value(
            state@,
            alpha as int,
            beta as int,
            depth as nat,
            old(cache).model(),
            max_nodes as nat,
        ),
        -UNBOUNDED <= r <= UNBOUNDED,
        final(cache).ok(),
    decreases depth, 2nat, 0nat,
{
    match cache.find(state) {
        Some(i) => {
            let (d, v) = cache.entry(i);
            if d >= depth {
                return v;
            }
        },
        None => {},
    }
    let v = search_inner(state, alpha, beta, depth, cache, max_nodes);
    cache.store(state, depth, v);
    v
}

fn search_inner(
    state: &BoardState,
    alpha: i64,
    beta: i64,
    depth: usize,
    cache: &mut Transpositions,
    max_nodes: usize,
) -> (r: i64)
    requires
        -UNBOUNDED <= alpha <= UNBOUNDED,
        -UNBOUNDED <= beta <= UNBOUNDED,
        old(cache).ok(),
    ensures
        (r as int, final(cache).model()) == search_inner_value(
            state@,
            alpha as int,
            beta as int,
            depth as nat,
            old(cache).model(),
            max_nodes as nat,
        ),
        -UNBOUNDED <= r <= UNBOUNDED,
        final(cache).ok(),
    decreases depth, 1nat, 0nat,
{
    let ghost p = state@;
    if depth == 0 || cache.len() >= max_nodes {
        return eval(state);
    }
    let mut moves = get_all_moves(state);
    moves.truncate(MAX_MOVES);
    assert(moves@ =~= searched_moves(p));
    if moves.len() == 0 {
        return eval(state);
    }
    let ghost c0 = cache.model();
    let mut best = alpha;
    let mut k: usize = 0;
    while k < moves.len()
        invariant
            0 <= k <= moves.len(),
            p == state@,
            moves@ == searched_moves(p),
            depth > 0,
            -UNBOUNDED <= best <= UNBOUNDED,
            -UNBOUNDED <= beta <= UNBOUNDED,
            c0 == old(cache).model(),
            cache.ok(),
            search_inner_value(p, alpha as int, beta as int, depth as nat, c0, max_nodes as nat)
                == best_reply(
                p,
                moves@,
                k as int,
                best as int,
                beta as int,
                depth as nat,
                cache.model(),
                max_nodes as nat,
            ),
        decreases moves.len() - k,
    {
        let (f, t, prm) = moves[k];
        let ghost cpre = cache.model();
        let ghost apre = best;
        let mut next = *state;
        match next.make_move(f, t, prm) {
            Err(_) => {},
            Ok(_) => {
                let e = -search(&next, -beta, -best, depth - 1, cache, max_nodes);
                if e > best {
                    best = e;
                    if beta <= best {
                        assert(best_reply(p, moves@, k as int, apre as int, beta as int, depth as nat, cpre, max_nodes as nat) == (best as int, cache.model()));
                        return best;
                    }
                }
            },
        }
        k = k + 1;
    }
    best
}

pub open spec fn scores(v: Seq<i64>) -> Seq<int> {
    v.map_values(|x: i64| x as int)
}

/// Where `e` goes in the descending list `evals`.
fn insert_index(evals: &Vec<i64>, e: i64) -> (r: usize)
    ensures
        r == insert_pos(scores(evals@), e as int, 0),
        r <= evals.len(),
{
    let ghost ev = scores(evals@);
    let mut i: usize = 0;
    while i < evals.len() && evals[i] >= e
        invariant
            0 <= i <= evals.len(),
            ev == scores(evals@),
            insert_pos(ev, e as int, 0) == insert_pos(ev, e as int, i as int),
        decreases evals.len() - i,
    {
        i = i + 1;
    }
    i
}

/// One pass over the root moves at `depth`: the scores from best to worst and the moves in
/// the same order.
fn start_search(
    state: &BoardState,
    moves: &Vec<Move>,
    depth: usize,
    cache: &mut Transpositions,
    max_nodes: usize,
) -> (r: (Vec<i64>, Vec<Move>))
    requires
        depth >= 1,
        old(cache).ok(),
    ensures
        (scores(r.0@), r.1@, final(cache).model()) == root_pass(
            state@,
            moves@,
            0,
            depth as nat,
            Seq::empty(),
            Seq::empty(),
            old(cache).model(),
            max_nodes as nat,
        ),
        forall|i: int| 0 <= i < r.0@.len() ==> -UNBOUNDED <= #[trigger] r.0@[i] <= UNBOUNDED,
        final(cache).ok(),
{
    let ghost p = state@;
    let mut evals: Vec<i64> = Vec::new();
    let mut ordered_moves: Vec<Move> = Vec::new();
    assert(scores(evals@) =~= Seq::<int>::empty());
    let mut k: usize = 0;
    while k < moves.len()
        invariant
            0 <= k <= moves.len(),
            p == state@,
            depth >= 1,
            cache.ok(),
            evals@.len() == ordered_moves@.len(),
            forall|i: int| 0 <= i < evals@.len() ==> -UNBOUNDED <= #[trigger] evals@[i] <= UNBOUNDED,
            root_pass(
                p,
                moves@,
                0,
                depth as nat,
                Seq::empty(),
                Seq::empty(),
                old(cache).model(),
                max_nodes as nat,
            ) == root_pass(
                p,
                moves@,
                k as int,
                depth as nat,
                scores(evals@),
                ordered_moves@,
                cache.model(),
                max_nodes as nat,
            ),
        decreases moves.len() - k,
    {
        let (f, t, prm) = moves[k];
        let mut next = *state;
        match next.make_move(f, t, prm) {
            Err(_) => {},
            Ok(_) => {
                let beta: i64 = if evals.len() == 0 { UNBOUNDED } else { -evals[0] };
                let eval = -search(&next, -UNBOUNDED, beta, depth - 1, cache, max_nodes);
                let i = insert_index(&evals, eval);
                let ghost ev = scores(evals@);
                let ghost raw = evals@;
                evals.insert(i, eval);
                ordered_moves.insert(i, (f, t, prm));
                assert(scores(evals@) =~= ev.insert(i as int, eval as int));
                assert forall|j: int| 0 <= j < evals@.len() implies -UNBOUNDED <= #[trigger] evals@[j]
                    <= UNBOUNDED by {
                    if j > i {
                        assert(evals@[j] == raw[j - 1]);
                    }
                }
            },
        }
        k = k + 1;
    }
    (evals, ordered_moves)
}

/// Ranks the legal moves of `state` by searching up to `max_depth` plies, deepening one ply
/// at a time while the cache holds at most `max_nodes` positions. Returns the best score and
/// the moves from best to worst (ties in the order of the previous pass).
pub fn get_moves_ranked(state: &BoardState, max_depth: usize, max_nodes: usize) -> (r: (i64, Vec<Move>))
    ensures
        (r.0 as int, r.1@) == ranked(state@, max_depth as nat, max_nodes as nat),
{
    let ghost p = state@;
    let mut moves = get_all_moves(state);
    let mut eval: i64 = 0;
    let mut cache = Transpositions::new();
    if max_depth == 0 {
        return (eval, moves);
    }
    let mut depth: usize = 1;
    while depth <= max_depth
        invariant
            1 <= depth <= max_depth,
            p == state@,
            cache.ok(),
            ranked(p, max_depth as nat, max_nodes as nat) == deepen(
                p,
                moves@,
                eval as int,
                depth as nat,
                max_depth as nat,
                cache.model(),
                max_nodes as nat,
            ),
        decreases max_depth - depth,
    {
        let (evals, ordered) = start_search(state, &moves, depth, &mut cache, max_nodes);
        moves = ordered;
        eval = if evals.len() > 0 { evals[0] } else { 0 };
        assert(eval as int == (if scores(evals@).len() > 0 { scores(evals@)[0] } else { 0 }));
        assert(deepen(p, moves@, eval as int, (depth + 1) as nat, depth as nat, cache.model(), max_nodes as nat) == (eval as int, moves@));
        if cache.len() > max_nodes || depth == max_depth {
            return (eval, moves);
        }
        depth = depth + 1;
    }
    (eval, moves)
}

proof fn lemma_insert_pos_bounds(evals: Seq<int>, e: int, i: int)
    requires
        0 <= i <= evals.len(),
    ensures
        i <= insert_pos(evals, e, i) <= evals.len(),
    decreases evals.len() - i,
{
    if i < evals.len() && evals[i] >= e {
        lemma_insert_pos_bounds(evals, e, i + 1);
    }
}

proof fn lemma_empty_multiset(s: Seq<Move>)
    requires
        s.len() == 0,
    ensures
        s.to_multiset() == vstd::multiset::Multiset::<Move>::empty(),
{
    vstd::seq_lib::to_multiset_len(s);
    vstd::multiset::lemma_multiset_empty_len(s.to_multiset());
}

proof fn lemma_root_pass_permutes(
    p: Position,
    moves: Seq<Move>,
    k: int,
    depth: nat,
    evals: Seq<int>,
    ordered: Seq<Move>,
    c: CacheModel,
    max_nodes: nat,
)
    requires
        0 <= k <= moves.len(),
        evals.len() == ordered.len(),
        forall|j: int| k <= j < moves.len() ==> apply_move(p, moves[j].0, moves[j].1, moves[j].2) is Some,
    ensures
        ({
            let (ev, ord, _) = root_pass(p, moves, k, depth, evals, ordered, c, max_nodes);
            &&& ord.to_multiset() == ordered.to_multiset().add(moves.skip(k).to_multiset())
            &&& ev.len() == ord.len()
        }),
    decreases moves.len() - k,
{
    broadcast use vstd::seq_lib::to_multiset_insert, vstd::seq_lib::lemma_multiset_commutative;

    if k < moves.len() {
        let q = apply_move(p, moves[k].0, moves[k].1, moves[k].2)->0;
        let beta = if evals.len() == 0 {
            UNBOUNDED as int
        } else {
            -evals[0]
        };
        let (v, c2) = search_value(q.0, -UNBOUNDED, beta, (depth - 1) as nat, c, max_nodes);
        let e = -v;
        let i = insert_pos(evals, e, 0);
        lemma_insert_pos_bounds(evals, e, 0);
        lemma_root_pass_permutes(
            p,
            moves,
            k + 1,
            depth,
            evals.insert(i, e),
            ordered.insert(i, moves[k]),
            c2,
            max_nodes,
        );
        assert(moves.skip(k) =~= seq![moves[k]] + moves.skip(k + 1));
        assert(seq![moves[k]].to_multiset() =~= vstd::multiset::Multiset::empty().insert(moves[k])) by {
            vstd::seq_lib::to_multiset_build(Seq::<Move>::empty(), moves[k]);
            assert(Seq::<Move>::empty().push(moves[k]) =~= seq![moves[k]]);
            lemma_empty_multiset(Seq::<Move>::empty());
        }
        assert(ordered.insert(i, moves[k]).to_multiset().add(moves.skip(k + 1).to_multiset())
            =~= ordered.to_multiset().add(moves.skip(k).to_multiset()));
    } else {
        assert(moves.skip(k) =~= Seq::<Move>::empty());
        lemma_empty_multiset(moves.skip(k));
        assert(ordered.to_multiset().add(moves.skip(k).to_multiset()) =~= ordered.to_multiset());
    }
}

proof fn lemma_deepen_permutes(
    p: Position,
    moves: Seq<Move>,
    e: int,
    depth: nat,
    max_depth: nat,
    c: CacheModel,
    max_nodes: nat,
)
    requires
        moves.to_multiset() == legal_moves(p).to_multiset(),
    ensures
        deepen(p, moves, e, depth, max_depth, c, max_nodes).1.to_multiset() == legal_moves(
            p,
        ).to_multiset(),
    decreases max_depth + 1 - depth,
{
    broadcast use vstd::seq_lib::to_multiset_contains;

    if !(depth > max_depth || depth == 0) {
        assert forall|j: int| 0 <= j < moves.len() implies apply_move(
            p,
            moves[j].0,
            moves[j].1,
            moves[j].2,
        ) is Some by {
            assert(moves.to_multiset().count(moves[j]) > 0);
            assert(legal_moves(p).contains(moves[j]));
            let i = choose|i: int| 0 <= i < legal_moves(p).len() && legal_moves(p)[i] == moves[j];
            candidates(p).lemma_filter_pred(legal_pred(p), i);
        }
        lemma_root_pass_permutes(p, moves, 0, depth, Seq::empty(), Seq::empty(), c, max_nodes);
        assert(moves.skip(0) =~= moves);
        lemma_empty_multiset(Seq::<Move>::empty());
        assert(Seq::<Move>::empty().to_multiset().add(moves.to_multiset()) =~= moves.to_multiset());
        let (evals, ordered, c2) = root_pass(
            p,
            moves,
            0,
            depth,
            Seq::empty(),
            Seq::empty(),
            c,
            max_nodes,
        );
        let e2 = if evals.len() > 0 {
            evals[0]
        } else {
            0
        };
        if c2.len() <= max_nodes {
            lemma_deepen_permutes(p, ordered, e2, depth + 1, max_depth, c2, max_nodes);
        }
    }
}

/// The ranking holds every legal move exactly once.
pub proof fn lemma_ranking_holds_every_move(p: Position, max_depth: nat, max_nodes: nat)
    ensures
        ranked(p, max_depth, max_nodes).1.to_multiset() == legal_moves(p).to_multiset(),
{
    lemma_deepen_permutes(p, legal_moves(p), 0, 1, max_depth, Seq::empty(), max_nodes);
}

/// Identical positions are ranked identically, for fixed limits.
pub proof fn lemma_ranking_deterministic(a: BoardState, b: BoardState, max_depth: nat, max_nodes: nat)
    requires
        a@ == b@,
    ensures
        ranked(a@, max_depth, max_nodes) == ranked(b@, max_depth, max_nodes),
{
}

} // verus!
