use vstd::prelude::*;

use crate::bitboard::{Bitboard16, cells, grid, in_grid, lemma_cells_props, row_cells, rows_cells};
use crate::color::Color;
use crate::util::{lemma_outputs_distinct, splitmix_output, splitmix_state, Splitmix64};
use crate::Position;
use crate::random::random_seed;
use rand::rngs::ThreadRng;

verus! {

/// Maximum position range that `ZobristHash::stone` can hash.
pub const MAX_SIZE: usize = 32;

/// Seed of the fixed table behind `ZobristHash::stone`.
pub const HASHES_SEED: u64 = 0xb0b0_4a54_5eed;

/// Index of a stone in a table of hashes for boards `size` cells wide:
/// two entries per cell, black first.
pub open spec fn table_index(size: int, row: int, col: int, color: Color) -> int {
    color.index_of() + 2 * (col + size * row)
}

/// Zobrist hash of a board position.
#[derive(Copy, Clone, Debug, Default, PartialEq, Eq, Hash, Structural)]
pub struct ZobristHash(u64);

impl View for ZobristHash {
    type V = u64;

    closed spec fn view(&self) -> u64 {
        self.0
    }
}

impl ZobristHash {
    /// Hash of a stone of `color` on `pos`, from a fixed table of pseudo-random
    /// values generated by `Splitmix64` from `HASHES_SEED`.
    pub fn stone(pos: Position, color: Color) -> (r: ZobristHash)
        requires
            pos.row < MAX_SIZE,
            pos.col < MAX_SIZE,
        ensures
            r@ == splitmix_output(
                HASHES_SEED,
                table_index(MAX_SIZE as int, pos.row as int, pos.col as int, color) as nat,
            ),
    {
        let index = usize::from(color) + 2 * (pos.col + MAX_SIZE * pos.row);
        let mut rng = Splitmix64::with_seed(HASHES_SEED);
        let mut k: usize = 0;
        let mut value = rng.next();
        assert(splitmix_state(HASHES_SEED, 0) == HASHES_SEED);
        assert(rng@ == splitmix_state(HASHES_SEED, 1));
        while k < index
            invariant
                k <= index,
                rng@ == splitmix_state(HASHES_SEED, (k + 1) as nat),
                value == splitmix_output(HASHES_SEED, k as nat),
            decreases index - k,
        {
            value = rng.next();
            k += 1;
        }
        ZobristHash(value)
    }
}

/// Different stones get different hashes: no value occurs twice in the table behind
/// `ZobristHash::stone`.
pub proof fn lemma_stone_hashes_distinct(p1: Position, c1: Color, p2: Position, c2: Color)
    requires
        p1.row < MAX_SIZE,
        p1.col < MAX_SIZE,
        p2.row < MAX_SIZE,
        p2.col < MAX_SIZE,
        (p1, c1) != (p2, c2),
    ensures
        splitmix_output(HASHES_SEED, table_index(MAX_SIZE as int, p1.row as int, p1.col as int, c1) as nat)
            != splitmix_output(
            HASHES_SEED,
            table_index(MAX_SIZE as int, p2.row as int, p2.col as int, c2) as nat,
        ),
{
    let i = table_index(MAX_SIZE as int, p1.row as int, p1.col as int, c1);
    let j = table_index(MAX_SIZE as int, p2.row as int, p2.col as int, c2);
    assert(i != j) by {
        if i == j {
            assert(c1.index_of() == c2.index_of());
            assert(p1.col == p2.col);
            assert(p1.row == p2.row);
            assert(c1 == c2);
        }
    }
    lemma_outputs_distinct(HASHES_SEED, i as nat, j as nat);
}

impl ZobristHash {
    /// The hash of nothing.
    pub fn empty() -> (r: ZobristHash)
        ensures
            r@ == 0,
    {
        ZobristHash(0)
    }

    /// The hashes combined: their bitwise exclusive or.
    pub fn combine(self, other: ZobristHash) -> (r: ZobristHash)
        ensures
            r@ == self@ ^ other@,
    {
        ZobristHash(self.0 ^ other.0)
    }
}

impl vstd::std_specs::ops::BitXorSpecImpl for ZobristHash {
    open spec fn obeys_bitxor_spec() -> bool {
        true
    }

    open spec fn bitxor_req(self, rhs: ZobristHash) -> bool {
        true
    }

    closed spec fn bitxor_spec(self, rhs: ZobristHash) -> ZobristHash {
        ZobristHash(self.0 ^ rhs.0)
    }
}

impl core::ops::BitXor for ZobristHash {
    type Output = ZobristHash;

    fn bitxor(self, rhs: ZobristHash) -> (r: ZobristHash)
        ensures
            r@ == self@ ^ rhs@,
    {
        ZobristHash(self.0 ^ rhs.0)
    }
}

impl core::ops::BitXorAssign for ZobristHash {
    fn bitxor_assign(&mut self, rhs: ZobristHash)
        ensures
            final(self)@ == old(self)@ ^ rhs@,
    {
        self.0 = self.0 ^ rhs.0;
    }
}

impl vstd::std_specs::convert::FromSpecImpl<ZobristHash> for u64 {
    open spec fn obeys_from_spec() -> bool {
        true
    }

    open spec fn from_spec(value: ZobristHash) -> u64 {
        value@
    }
}

impl From<ZobristHash> for u64 {
    fn from(value: ZobristHash) -> (r: u64)
        ensures
            r == value@,
    {
        value.0
    }
}

/// Every entry of `hashes` is the output of the `Splitmix64` generator seeded with `seed`
/// at the entry's index.
pub open spec fn table_from_seed(hashes: Seq<u64>, seed: u64) -> bool {
    forall|i: int| 0 <= i < hashes.len() ==> #[trigger] hashes[i] == splitmix_output(seed, i as nat)
}

/// A table of Zobrist hashes for each stone on a board of `board_size` by `board_size` cells.
/// Invariant: the board is at most `MAX_SIZE` cells wide, and the table holds two entries
/// for each of its cells.
#[derive(Debug)]
pub struct ZobristHasher {
    board_size: usize,
    hashes: Vec<u64>,
}

impl Clone for ZobristHasher {
    fn clone(&self) -> (r: ZobristHasher)
        ensures
            r@ == self@,
    {
        proof {
            use_type_invariant(self);
        }
        let hashes = self.hashes.clone();
        assert(hashes@ =~= self.hashes@);
        ZobristHasher { board_size: self.board_size, hashes }
    }
}

impl View for ZobristHasher {
    /// The board size and the table.
    type V = (usize, Seq<u64>);

    closed spec fn view(&self) -> (usize, Seq<u64>) {
        (self.board_size, self.hashes@)
    }
}

impl ZobristHasher {
    /// The table holds two entries for each cell of the board.
    pub open spec fn wf(self) -> bool {
        &&& self@.0 <= MAX_SIZE
        &&& self@.1.len() == 2 * self@.0 * self@.0
    }

    #[verifier::type_invariant]
    spec fn inv(self) -> bool {
        self.wf()
    }

    /// Every table is well formed. A call makes this known to the caller's proof; it does
    /// nothing else.
    pub fn validity(&self)
        ensures
            self.wf(),
    {
        proof {
            use_type_invariant(self);
        }
    }

    /// The hash of a stone of `color` on cell `p`.
    pub open spec fn entry(self, p: (int, int), color: Color) -> u64 {
        self@.1[table_index(self@.0 as int, p.0, p.1, color)]
    }

    /// A table filled from the `Splitmix64` generator seeded with `seed`.
    /// Panics for boards larger than `MAX_SIZE`.
    pub fn with_seed(board_size: usize, seed: u64) -> (r: ZobristHasher)
        requires
            board_size <= MAX_SIZE,
        ensures
            r.wf(),
            r@.0 == board_size,
            table_from_seed(r@.1, seed),
    {
        assert(2 * board_size * board_size <= 2048) by (nonlinear_arith)
            requires
                board_size <= 32,
        ;
        let n = 2 * board_size * board_size;
        let mut rng = Splitmix64::with_seed(seed);
        let mut hashes: Vec<u64> = Vec::new();
        while hashes.len() < n
            invariant
                hashes@.len() <= n,
                rng@ == splitmix_state(seed, hashes@.len() as nat),
                forall|i: int| 0 <= i < hashes@.len() ==> #[trigger] hashes@[i] == splitmix_output(seed, i as nat),
            decreases n - hashes@.len(),
        {
            let v = rng.next();
            hashes.push(v);
        }
        ZobristHasher { board_size, hashes }
    }

    /// A table of hashes for boards of `board_size` by `board_size` cells, generated by
    /// `Splitmix64` from a seed drawn from `rng`.
    /// Panics for boards larger than `MAX_SIZE`.
    pub fn new(board_size: usize, rng: &mut ThreadRng) -> (r: ZobristHasher)
        requires
            board_size <= MAX_SIZE,
        ensures
            r.wf(),
            r@.0 == board_size,
            exists|seed: u64| #[trigger] table_from_seed(r@.1, seed),
    {
        let seed = random_seed(rng);
        let r = Self::with_seed(board_size, seed);
        assert(table_from_seed(r@.1, seed));
        r
    }

    /// Width and height of the boards this table hashes.
    pub fn board_size(&self) -> (r: usize)
        ensures
            r == self@.0,
    {
        self.board_size
    }

    /// Hash of a stone of `color` on `pos`.
    pub fn stone(&self, pos: Position, color: Color) -> (r: ZobristHash)
        requires
            pos.row < self@.0,
            pos.col < self@.0,
        ensures
            r@ == self.entry((pos.row as int, pos.col as int), color),
    {
        proof {
            use_type_invariant(self);
            assert(pos.col + self.board_size * pos.row < self.board_size * self.board_size
                && self.board_size * self.board_size <= 1024
                && 2 * self.board_size * self.board_size == 2 * (self.board_size * self.board_size)) by (nonlinear_arith)
                requires
                    pos.row < self.board_size,
                    pos.col < self.board_size,
                    self.board_size <= 32,
            ;
        }
        let index = usize::from(color) + 2 * (pos.col + self.board_size * pos.row);
        assert(index < 2 * self.board_size * self.board_size);
        ZobristHash(self.hashes[index])
    }
}

/// The hashes of stones of `color` on the cells of `q`, combined.
pub open spec fn xor_cells(h: ZobristHasher, q: Seq<(int, int)>, color: Color) -> u64
    decreases q.len(),
{
    if q.len() == 0 {
        0
    } else {
        xor_cells(h, q.drop_last(), color) ^ h.entry(q.last(), color)
    }
}

/// The hash of stones of `color` on the cells of `s`.
pub open spec fn stones_hash(h: ZobristHasher, s: Set<(int, int)>, color: Color) -> u64 {
    xor_cells(h, cells(s), color)
}

/// Exclusive or is associative and commutative, with 0 as its unit and every value its own inverse.
pub proof fn lemma_xor_facts(a: u64, b: u64, c: u64)
    by (bit_vector)
    ensures
        (a ^ b) ^ c == a ^ (b ^ c),
        a ^ b == b ^ a,
        a ^ 0u64 == a,
        0u64 ^ a == a,
        a ^ a == 0u64,
        (a ^ b) ^ c == (a ^ c) ^ b,
{
}

/// Regrouping four values under exclusive or.
pub proof fn lemma_xor_regroup(a: u64, b: u64, c: u64, d: u64)
    by (bit_vector)
    ensures
        (a ^ b) ^ (c ^ d) == (a ^ c) ^ (b ^ d),
{
}

proof fn lemma_xor_cells_append(h: ZobristHasher, q1: Seq<(int, int)>, q2: Seq<(int, int)>, color: Color)
    ensures
        xor_cells(h, q1 + q2, color) == xor_cells(h, q1, color) ^ xor_cells(h, q2, color),
    decreases q2.len(),
{
    if q2.len() == 0 {
        assert(q1 + q2 =~= q1);
        lemma_xor_facts(xor_cells(h, q1, color), 0, 0);
    } else {
        lemma_xor_cells_append(h, q1, q2.drop_last(), color);
        assert((q1 + q2).drop_last() =~= q1 + q2.drop_last());
        lemma_xor_facts(xor_cells(h, q1, color), xor_cells(h, q2.drop_last(), color), h.entry(q2.last(), color));
    }
}

proof fn lemma_xor_row_union(h: ZobristHasher, a: Set<(int, int)>, b: Set<(int, int)>, r: int, c: nat, color: Color)
    requires
        a.disjoint(b),
    ensures
        xor_cells(h, row_cells(a.union(b), r, c), color) == xor_cells(h, row_cells(a, r, c), color)
            ^ xor_cells(h, row_cells(b, r, c), color),
    decreases c,
{
    if c == 0 {
        lemma_xor_facts(0, 0, 0);
    } else {
        lemma_xor_row_union(h, a, b, r, (c - 1) as nat, color);
        let xa = xor_cells(h, row_cells(a, r, (c - 1) as nat), color);
        let xb = xor_cells(h, row_cells(b, r, (c - 1) as nat), color);
        let e = h.entry((r, c - 1), color);
        let p = (r, c - 1);
        if a.contains(p) {
            assert(row_cells(a, r, c).drop_last() =~= row_cells(a, r, (c - 1) as nat));
            assert(row_cells(a.union(b), r, c).drop_last() =~= row_cells(a.union(b), r, (c - 1) as nat));
            lemma_xor_facts(xa, xb, e);
        } else if b.contains(p) {
            assert(row_cells(b, r, c).drop_last() =~= row_cells(b, r, (c - 1) as nat));
            assert(row_cells(a.union(b), r, c).drop_last() =~= row_cells(a.union(b), r, (c - 1) as nat));
            lemma_xor_facts(xa, xb, e);
        }
    }
}

proof fn lemma_xor_rows_union(h: ZobristHasher, a: Set<(int, int)>, b: Set<(int, int)>, n: nat, color: Color)
    requires
        a.disjoint(b),
    ensures
        xor_cells(h, rows_cells(a.union(b), n), color) == xor_cells(h, rows_cells(a, n), color)
            ^ xor_cells(h, rows_cells(b, n), color),
    decreases n,
{
    if n == 0 {
        lemma_xor_facts(0, 0, 0);
    } else {
        lemma_xor_rows_union(h, a, b, (n - 1) as nat, color);
        lemma_xor_row_union(h, a, b, n - 1, 16, color);
        lemma_xor_cells_append(h, rows_cells(a.union(b), (n - 1) as nat), row_cells(a.union(b), n - 1, 16), color);
        lemma_xor_cells_append(h, rows_cells(a, (n - 1) as nat), row_cells(a, n - 1, 16), color);
        lemma_xor_cells_append(h, rows_cells(b, (n - 1) as nat), row_cells(b, n - 1, 16), color);
        let x1 = xor_cells(h, rows_cells(a, (n - 1) as nat), color);
        let x2 = xor_cells(h, rows_cells(b, (n - 1) as nat), color);
        let y1 = xor_cells(h, row_cells(a, n - 1, 16), color);
        let y2 = xor_cells(h, row_cells(b, n - 1, 16), color);
        lemma_xor_regroup(x1, x2, y1, y2);
    }
}

/// The hash of stones on two disjoint sets of cells combines their hashes.
pub proof fn lemma_stones_hash_union(h: ZobristHasher, a: Set<(int, int)>, b: Set<(int, int)>, color: Color)
    requires
        a.disjoint(b),
    ensures
        stones_hash(h, a.union(b), color) == stones_hash(h, a, color) ^ stones_hash(h, b, color),
{
    lemma_xor_rows_union(h, a, b, 16, color);
}

/// The hash of stones on no cells is 0.
pub proof fn lemma_stones_hash_empty(h: ZobristHasher, color: Color)
    ensures
        stones_hash(h, Set::<(int, int)>::empty(), color) == 0,
{
    lemma_cells_props(Set::<(int, int)>::empty());
    assert(cells(Set::<(int, int)>::empty()).len() == 0) by {
        assert(Set::<(int, int)>::empty().intersect(grid()) =~= Set::<(int, int)>::empty());
    }
}

/// The hash of a single stone is its table entry.
pub proof fn lemma_stones_hash_single(h: ZobristHasher, p: (int, int), color: Color)
    requires
        in_grid(p),
    ensures
        stones_hash(h, set![p], color) == h.entry(p, color),
{
    let s = set![p];
    lemma_cells_props(s);
    assert(s.intersect(grid()) =~= s);
    assert(s.len() == 1);
    let q = cells(s);
    assert(q.len() == 1);
    assert(q[0] == p);
    assert(q.drop_last() =~= Seq::<(int, int)>::empty());
    assert(xor_cells(h, q.drop_last(), color) == 0);
    assert(q.last() == p);
    lemma_xor_facts(h.entry(p, color), 0, 0);
}

/// A cell's number `col + n * row` on a board `n` cells wide lies below `n * n`.
proof fn lemma_cell_number(n: int, r: int, c: int)
    requires
        0 <= r < n,
        0 <= c < n,
    ensures
        0 <= c + n * r < n * n,
{
    assert(0 <= n * r <= n * (n - 1)) by (nonlinear_arith)
        requires
            0 <= r < n,
    ;
    assert(n * (n - 1) + n == n * n) by (nonlinear_arith);
}

/// Different cells of a board `n` cells wide have different numbers `col + n * row`.
proof fn lemma_cell_number_injective(n: int, r1: int, c1: int, r2: int, c2: int)
    requires
        0 <= r1 < n,
        0 <= c1 < n,
        0 <= r2 < n,
        0 <= c2 < n,
        c1 + n * r1 == c2 + n * r2,
    ensures
        r1 == r2,
        c1 == c2,
{
    if r1 < r2 {
        assert(n * r2 - n * r1 >= n) by (nonlinear_arith)
            requires
                r1 < r2,
                n > 0,
        ;
    } else if r2 < r1 {
        assert(n * r1 - n * r2 >= n) by (nonlinear_arith)
            requires
                r2 < r1,
                n > 0,
        ;
    }
}

/// In a table filled from a seed, different stones on its board have different hashes:
/// both the cell and the color change the entry.
pub proof fn lemma_entries_distinct(
    h: ZobristHasher,
    seed: u64,
    p1: (int, int),
    c1: Color,
    p2: (int, int),
    c2: Color,
)
    requires
        h.wf(),
        table_from_seed(h@.1, seed),
        0 <= p1.0 < h@.0,
        0 <= p1.1 < h@.0,
        0 <= p2.0 < h@.0,
        0 <= p2.1 < h@.0,
        (p1, c1) != (p2, c2),
    ensures
        h.entry(p1, c1) != h.entry(p2, c2),
{
    let n = h@.0 as int;
    let i = table_index(n, p1.0, p1.1, c1);
    let j = table_index(n, p2.0, p2.1, c2);
    let x1 = p1.1 + n * p1.0;
    let x2 = p2.1 + n * p2.0;
    lemma_cell_number(n, p1.0, p1.1);
    lemma_cell_number(n, p2.0, p2.1);
    if x1 == x2 {
        lemma_cell_number_injective(n, p1.0, p1.1, p2.0, p2.1);
    }
    assert(i != j) by {
        if i == j {
            assert(c1.index_of() == c2.index_of());
            assert(x1 == x2);
            assert(c1 == c2);
        }
    }
    assert(h@.1.len() == 2 * (n * n)) by (nonlinear_arith)
        requires
            h@.1.len() == 2 * h@.0 * h@.0,
            n == h@.0,
    ;
    assert(n * n <= 1024) by (nonlinear_arith)
        requires
            0 <= n <= 32,
    ;
    assert(h@.1[i] == splitmix_output(seed, i as nat));
    assert(h@.1[j] == splitmix_output(seed, j as nat));
    lemma_outputs_distinct(seed, i as nat, j as nat);
}

impl ZobristHasher {
    /// `start` combined with the hashes of stones of `color` on every position of `stones`.
    pub fn hash_stones(&self, stones: &Bitboard16, color: Color, start: ZobristHash) -> (r: ZobristHash)
        requires
            forall|p: (int, int)| #[trigger] stones@.contains(p) ==> p.0 < self@.0 && p.1 < self@.0,
        ensures
            r@ == start@ ^ stones_hash(*self, stones@, color),
    {
        self.validity();
        let positions = stones.iter_positions();
        let ghost q = cells(stones@);
        proof {
            lemma_cells_props(stones@);
            assert(q.take(0) =~= Seq::<(int, int)>::empty());
            lemma_xor_facts(start@, 0, 0);
        }
        let mut acc = start;
        let mut i: usize = 0;
        while i < positions.len()
            invariant
                self.wf(),
                positions@.len() == q.len(),
                forall|k: int| 0 <= k < positions@.len() ==> (#[trigger] positions@[k].row as int, positions@[k].col as int) == q[k],
                forall|k: int| 0 <= k < q.len() ==> #[trigger] stones@.contains(q[k]),
                forall|p: (int, int)| #[trigger] stones@.contains(p) ==> p.0 < self@.0 && p.1 < self@.0,
                i <= positions@.len(),
                acc@ == start@ ^ xor_cells(*self, q.take(i as int), color),
            decreases positions@.len() - i,
        {
            let pos = positions[i];
            assert(stones@.contains(q[i as int]));
            let e = self.stone(pos, color);
            proof {
                assert(q.take(i + 1).drop_last() =~= q.take(i as int));
                lemma_xor_facts(start@, xor_cells(*self, q.take(i as int), color), e@);
            }
            acc = acc.combine(e);
            i += 1;
        }
        assert(q.take(i as int) =~= q);
        acc
    }
}

} // verus!
