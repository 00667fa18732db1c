use vstd::prelude::*;

use crate::bitboard::{
    lemma_ascii_roundtrip, lemma_dilation_transposed, lemma_flood_transposed, dilation, flood, grid, in_grid, lemma_flood_absorbs, lemma_flood_bounds, lemma_flood_closed,
    marks,
    lemma_flood_mono, lemma_flood_symmetric, lemma_flood_within, touches, transposed, Bitboard16,
};
use crate::color::{Color, ColorMap};
use crate::zobrist::{
    lemma_entries_distinct, lemma_stones_hash_empty, lemma_stones_hash_single, lemma_xor_facts,
    stones_hash, table_from_seed, ZobristHash, ZobristHasher,
};
use crate::Position;
use core::ops::Not;
use crate::ascii::{
    lemma_compact_text, lines_end_with, ascii_text, drawn_cells, format_ascii_helper, lemma_ascii_marks, lemma_line_covers,
    lemma_line_len_bound, marked_cells, marked_upto, rows_of, step_cursor,
};
use vstd::string::StrSliceExecFns;
use crate::random::random_below;
use rand::rngs::ThreadRng;

verus! {

/// Why a move is refused.
#[derive(Clone, Copy, Debug, PartialEq, Eq, Structural)]
pub enum MoveError {
    NonEmptyPosition,
    Suicide,
    Ko,
}

/// Describes potential problems with board.
#[derive(Clone, Copy, Debug, PartialEq, Eq, Structural)]
pub enum BoardInvariantError {
    Overlap,
    StoneOutsideBoard,
    ZeroLiberties,
    WrongHash,
}

/// Width and height of the board.
pub const BOARD_SIZE: usize = 13;

/// The cells of the board.
pub open spec fn board_cells() -> Set<(int, int)> {
    Set::new(|p: (int, int)| 0 <= p.0 < BOARD_SIZE && 0 <= p.1 < BOARD_SIZE)
}

/// The cells of the board that hold no stone.
pub open spec fn empty_cells(black: Set<(int, int)>, white: Set<(int, int)>) -> Set<(int, int)> {
    board_cells().difference(black.union(white))
}

/// Every stone of `stones` is connected through `stones` to a stone next to an empty cell:
/// no group of `stones` is without liberties.
pub open spec fn has_liberties(stones: Set<(int, int)>, empty: Set<(int, int)>) -> bool {
    flood(stones.intersect(dilation(empty)), stones) == stones
}

/// What `check_stone_invariants` reports for two sets of stones: overlap first, then for
/// black and then for white, stones outside the board, then groups without liberties.
pub open spec fn stones_check(black: Set<(int, int)>, white: Set<(int, int)>) -> Result<
    (),
    BoardInvariantError,
> {
    let empty = empty_cells(black, white);
    if !black.disjoint(white) {
        Err(BoardInvariantError::Overlap)
    } else if !black.subset_of(board_cells()) {
        Err(BoardInvariantError::StoneOutsideBoard)
    } else if !has_liberties(black, empty) {
        Err(BoardInvariantError::ZeroLiberties)
    } else if !white.subset_of(board_cells()) {
        Err(BoardInvariantError::StoneOutsideBoard)
    } else if !has_liberties(white, empty) {
        Err(BoardInvariantError::ZeroLiberties)
    } else {
        Ok(())
    }
}

/// Black and white stones never overlap, lie on the board, and have no group without liberties.
pub open spec fn stones_valid(black: Set<(int, int)>, white: Set<(int, int)>) -> bool {
    stones_check(black, white) is Ok
}

/// The Zobrist hash of a board with these stones.
pub open spec fn board_hash(h: ZobristHasher, black: Set<(int, int)>, white: Set<(int, int)>) -> u64 {
    stones_hash(h, black, Color::Black) ^ stones_hash(h, white, Color::White)
}

/// The outcome of playing a stone on `p` for the side whose stones are `own`, against
/// the stones `opp`: the new stones of both sides, or why the move is refused.
/// Opponent groups left without liberties are captured; a move whose own group is then
/// without liberties is suicide.
pub open spec fn play_outcome(own: Set<(int, int)>, opp: Set<(int, int)>, p: (int, int)) -> Result<
    (Set<(int, int)>, Set<(int, int)>),
    MoveError,
> {
    let empty = board_cells().difference(own.union(opp));
    if !empty.contains(p) {
        Err(MoveError::NonEmptyPosition)
    } else {
        let own2 = own.insert(p);
        let empty2 = empty.remove(p);
        let live = flood(opp.intersect(dilation(empty2)), opp);
        let empty3 = empty2.union(opp.difference(live));
        if dilation(flood(set![p], own2)).disjoint(empty3) {
            Err(MoveError::Suicide)
        } else {
            Ok((own2, live))
        }
    }
}

/// The stones of one side and of the other never overlap, lie on the board, and have
/// no group without liberties.
pub open spec fn valid_pair(a: Set<(int, int)>, b: Set<(int, int)>) -> bool {
    let empty = board_cells().difference(a.union(b));
    &&& a.disjoint(b)
    &&& a.subset_of(board_cells())
    &&& b.subset_of(board_cells())
    &&& has_liberties(a, empty)
    &&& has_liberties(b, empty)
}

/// Validity does not depend on which side is named first.
pub proof fn lemma_valid_pair(black: Set<(int, int)>, white: Set<(int, int)>)
    ensures
        stones_valid(black, white) == valid_pair(black, white),
        valid_pair(black, white) == valid_pair(white, black),
{
    assert(black.union(white) =~= white.union(black));
}

proof fn lemma_dilation_mono(a: Set<(int, int)>, b: Set<(int, int)>)
    requires
        a.subset_of(b),
    ensures
        dilation(a).subset_of(dilation(b)),
{
}

/// A move next to no opponent stone captures nothing.
proof fn lemma_no_capture(own: Set<(int, int)>, opp: Set<(int, int)>, p: (int, int))
    requires
        valid_pair(own, opp),
        board_cells().difference(own.union(opp)).contains(p),
        dilation(set![p]).disjoint(opp),
    ensures
        flood(opp.intersect(dilation(board_cells().difference(own.union(opp)).remove(p))), opp)
            == opp,
{
    let empty = board_cells().difference(own.union(opp));
    let empty2 = empty.remove(p);
    let seed = opp.intersect(dilation(empty));
    let seed2 = opp.intersect(dilation(empty2));
    assert forall|z: (int, int)| seed.contains(z) implies seed2.contains(z) by {
        assert(!empty.contains(z));
        if empty2.contains((z.0 - 1, z.1)) || empty2.contains((z.0 + 1, z.1)) || empty2.contains(
            (z.0, z.1 - 1),
        ) || empty2.contains((z.0, z.1 + 1)) {
        } else {
            // the only empty neighbour of z would be p itself
            assert(touches(set![p], z));
            assert(in_grid(z));
            assert(dilation(set![p]).contains(z));
        }
    }
    lemma_flood_mono(seed, opp, seed2, opp);
    lemma_flood_bounds(seed2, opp);
    assert(flood(seed2, opp) =~= opp);
}

/// When a cell next to the move is empty after captures, the move is no suicide.
proof fn lemma_not_suicide(own2: Set<(int, int)>, empty3: Set<(int, int)>, p: (int, int))
    requires
        own2.contains(p),
        !dilation(set![p]).disjoint(empty3),
    ensures
        !dilation(flood(set![p], own2)).disjoint(empty3),
{
    lemma_flood_bounds(set![p], own2);
    assert(set![p].intersect(own2).contains(p));
    lemma_dilation_mono(set![p], flood(set![p], own2));
    let e = choose|e: (int, int)| dilation(set![p]).contains(e) && empty3.contains(e);
    assert(dilation(flood(set![p], own2)).contains(e));
}

/// A legal move leaves a valid board.
pub proof fn lemma_play_keeps_valid(own: Set<(int, int)>, opp: Set<(int, int)>, p: (int, int))
    requires
        valid_pair(own, opp),
        play_outcome(own, opp, p) is Ok,
    ensures
        valid_pair(play_outcome(own, opp, p)->Ok_0.0, play_outcome(own, opp, p)->Ok_0.1),
{
    let empty = board_cells().difference(own.union(opp));
    let own2 = own.insert(p);
    let empty2 = empty.remove(p);
    let live = flood(opp.intersect(dilation(empty2)), opp);
    let captured = opp.difference(live);
    let empty3 = empty2.union(captured);
    let group = flood(set![p], own2);
    assert(play_outcome(own, opp, p) == Ok::<(Set<(int, int)>, Set<(int, int)>), MoveError>(
        (own2, live),
    ));
    lemma_flood_bounds(opp.intersect(dilation(empty2)), opp);
    assert(board_cells().difference(own2.union(live)) =~= empty3);
    // The opponent's remaining groups keep a liberty.
    let seed = opp.intersect(dilation(empty2));
    let seed2 = live.intersect(dilation(empty3));
    assert forall|z: (int, int)| seed.contains(z) implies seed2.contains(z) by {
        lemma_flood_bounds(seed, opp);
        assert(seed.intersect(opp).contains(z));
    }
    lemma_flood_within(seed, opp, seed2, live);
    lemma_flood_bounds(seed2, live);
    assert(flood(seed2, live) =~= live);
    // The mover's groups keep a liberty.
    let f = flood(own2.intersect(dilation(empty3)), own2);
    let e = choose|e: (int, int)| dilation(group).contains(e) && empty3.contains(e);
    lemma_flood_bounds(set![p], own2);
    assert(!group.contains(e));
    let x = if group.contains((e.0 - 1, e.1)) {
        (e.0 - 1, e.1)
    } else if group.contains((e.0 + 1, e.1)) {
        (e.0 + 1, e.1)
    } else if group.contains((e.0, e.1 - 1)) {
        (e.0, e.1 - 1)
    } else {
        (e.0, e.1 + 1)
    };
    assert(group.contains(x));
    assert(own2.contains(x));
    assert(in_grid(x));
    assert(dilation(empty3).contains(x));
    lemma_flood_bounds(own2.intersect(dilation(empty3)), own2);
    assert(f.contains(x));
    assert(set![p].intersect(own2).contains(p));
    lemma_flood_symmetric(p, x, own2);
    lemma_flood_absorbs(own2.intersect(dilation(empty3)), set![x], own2);
    assert(f.contains(p));
    let old_seed = own.intersect(dilation(empty));
    assert forall|z: (int, int)| old_seed.contains(z) implies f.contains(z) by {
        assert(!empty.contains(z));
        if empty2.contains((z.0 - 1, z.1)) || empty2.contains((z.0 + 1, z.1)) || empty2.contains(
            (z.0, z.1 - 1),
        ) || empty2.contains((z.0, z.1 + 1)) {
            assert(dilation(empty3).contains(z));
            assert(own2.intersect(dilation(empty3)).contains(z));
        } else {
            assert(touches(f, z));
            lemma_flood_closed(own2.intersect(dilation(empty3)), own2, z);
        }
    }
    lemma_flood_mono(old_seed, own, f, own2);
    lemma_flood_absorbs(own2.intersect(dilation(empty3)), f, own2);
    assert(flood(f, own2) == flood(f, own2));
    assert forall|y: (int, int)| own2.contains(y) implies f.contains(y) by {
        if y != p {
            assert(own.contains(y));
            assert(flood(old_seed, own).contains(y));
            assert(flood(f, own2).contains(y));
        }
    }
    assert(f =~= own2);
}

/// Represents a board state in game, doesn't consider side to play or ko history.
/// Invariants:
///   - Black and white stones never overlap.
///   - No stones outside of SIZE x SIZE.
///   - No zero liberty groups.
#[derive(Debug, PartialEq, Eq)]
pub struct Board {
    stones: ColorMap<Bitboard16>,
    hash: ZobristHash,
}

impl View for Board {
    /// Black stones, white stones, hash.
    type V = (Set<(int, int)>, Set<(int, int)>, u64);

    closed spec fn view(&self) -> (Set<(int, int)>, Set<(int, int)>, u64) {
        (self.stones@.0@, self.stones@.1@, self.hash@)
    }
}

impl Board {
    pub const SIZE: usize = BOARD_SIZE;

    #[verifier::type_invariant]
    spec fn inv(self) -> bool {
        stones_valid(self.stones@.0@, self.stones@.1@)
    }

    /// The stones of a color.
    pub open spec fn stones_of(self, c: Color) -> Set<(int, int)> {
        match c {
            Color::Black => self@.0,
            Color::White => self@.1,
        }
    }

    /// The stored hash is the hash of the stones under `h`.
    pub open spec fn hash_matches(self, h: ZobristHasher) -> bool {
        self@.2 == board_hash(h, self@.0, self@.1)
    }
}

/// The empty positions of the board for the given stones.
fn empty_of(stones: &ColorMap<Bitboard16>) -> (r: Bitboard16)
    ensures
        r@ == empty_cells(stones@.0@, stones@.1@),
{
    let occupied = stones.get(Color::Black).union(stones.get(Color::White));
    let r = Bitboard16::board_mask(Board::SIZE).intersection(&occupied.complement());
    assert(r@ =~= empty_cells(stones@.0@, stones@.1@));
    r
}

/// Checks invariants of the board stones (as documented on `Board`).
fn check_stone_invariants(stones: &ColorMap<Bitboard16>) -> (r: Result<(), BoardInvariantError>)
    ensures
        r == stones_check(stones@.0@, stones@.1@),
{
    let black = *stones.get(Color::Black);
    let white = *stones.get(Color::White);
    if !black.intersection(&white).is_empty() {
        proof {
            if black@.disjoint(white@) {
                assert(black@.intersect(white@) =~= Set::<(int, int)>::empty());
            }
        }
        return Err(BoardInvariantError::Overlap);
    }
    assert(black@.disjoint(white@)) by {
        assert forall|p: (int, int)| black@.contains(p) implies !white@.contains(p) by {
            assert(!black@.intersect(white@).contains(p));
        }
    }
    let out_of_board_mask = Bitboard16::board_mask(Board::SIZE).complement();
    let empty = empty_of(stones);
    let dilated = empty.dilate();
    let mut k: usize = 0;
    while k < 2
        invariant
            k <= 2,
            black@.disjoint(white@),
            black == stones@.0,
            white == stones@.1,
            out_of_board_mask@ == grid().difference(board_cells()),
            dilated@ == dilation(empty_cells(black@, white@)),
            k >= 1 ==> black@.subset_of(board_cells()) && has_liberties(
                black@,
                empty_cells(black@, white@),
            ),
            k >= 2 ==> white@.subset_of(board_cells()) && has_liberties(
                white@,
                empty_cells(black@, white@),
            ),
        decreases 2 - k,
    {
        let bb = if k == 0 {
            black
        } else {
            white
        };
        let outside = bb.intersection(&out_of_board_mask);
        if !outside.is_empty() {
            proof {
                bb.lemma_view_in_grid();
                assert(bb@.subset_of(board_cells()) ==> outside@ =~= Set::<(int, int)>::empty());
            }
            return Err(BoardInvariantError::StoneOutsideBoard);
        }
        proof {
            bb.lemma_view_in_grid();
            assert forall|p: (int, int)| bb@.contains(p) implies board_cells().contains(p) by {
                assert(!outside@.contains(p));
            }
        }
        let filled = bb.intersection(&dilated).flood_fill(bb);
        if !filled.same_as(&bb) {
            return Err(BoardInvariantError::ZeroLiberties);
        }
        k += 1;
    }
    Ok(())
}

/// The hash of the stones under `hasher`.
fn rehash(stones: &ColorMap<Bitboard16>, hasher: &ZobristHasher) -> (r: ZobristHash)
    requires
        hasher@.0 == BOARD_SIZE,
        stones@.0@.subset_of(board_cells()),
        stones@.1@.subset_of(board_cells()),
    ensures
        r@ == board_hash(*hasher, stones@.0@, stones@.1@),
{
    let black = hasher.hash_stones(stones.get(Color::Black), Color::Black, ZobristHash::empty());
    let white = hasher.hash_stones(stones.get(Color::White), Color::White, ZobristHash::empty());
    proof {
        lemma_xor_facts(stones_hash(*hasher, stones@.0@, Color::Black), 0, 0);
        lemma_xor_facts(stones_hash(*hasher, stones@.1@, Color::White), 0, 0);
    }
    black.combine(white)
}

impl Board {
    pub fn new() -> (b: Board)
        ensures
            b@ == (Set::<(int, int)>::empty(), Set::<(int, int)>::empty(), 0u64),
    {
        let stones = ColorMap::from([Bitboard16::new(), Bitboard16::new()]);
        proof {
            let e = Set::<(int, int)>::empty();
            lemma_flood_bounds(e.intersect(dilation(empty_cells(e, e))), e);
            assert(flood(e.intersect(dilation(empty_cells(e, e))), e) =~= e);
        }
        Board { stones, hash: ZobristHash::empty() }
    }

    /// Constructs a new board from stone bitboards stored in a color map,
    /// calculates a correct hash.
    pub fn from_stones(stones: ColorMap<Bitboard16>, hasher: &ZobristHasher) -> (r: Result<
        Board,
        BoardInvariantError,
    >)
        requires
            hasher@.0 == BOARD_SIZE,
        ensures
            match stones_check(stones@.0@, stones@.1@) {
                Err(e) => r == Err::<Board, BoardInvariantError>(e),
                Ok(_) => match r {
                    Ok(b) => b@ == (stones@.0@, stones@.1@, board_hash(*hasher, stones@.0@, stones@.1@)),
                    Err(_) => false,
                },
            },
    {
        match check_stone_invariants(&stones) {
            Err(e) => Err(e),
            Ok(()) => {
                let hash = rehash(&stones, hasher);
                Ok(Board { stones, hash })
            },
        }
    }

    /// Every board is valid: its stones never overlap, lie on the board and leave no group
    /// without liberties. A call makes this known to the caller's proof; it does nothing else.
    pub fn validity(&self)
        ensures
            stones_valid(self@.0, self@.1),
    {
        proof {
            use_type_invariant(self);
        }
    }

    pub fn hash(&self) -> (r: ZobristHash)
        ensures
            r@ == self@.2,
    {
        self.hash
    }

    /// Returns a set of empty positions on the board.
    pub fn empty_positions(&self) -> (r: Bitboard16)
        ensures
            r@ == empty_cells(self@.0, self@.1),
    {
        empty_of(&self.stones)
    }
}

impl Board {
    /// `r` is what playing a stone of `color` on `pos` gives: the outcome of
    /// `play_outcome`, with the hash updated for the new stone and the captured ones.
    pub open spec fn play_result(
        self,
        pos: Position,
        color: Color,
        h: ZobristHasher,
        r: Result<Board, MoveError>,
    ) -> bool {
        let own = self.stones_of(color);
        let opp = self.stones_of(color.opposite());
        let p = (pos.row as int, pos.col as int);
        match play_outcome(own, opp, p) {
            Err(e) => r == Err::<Board, MoveError>(e),
            Ok((own2, opp2)) => match r {
                Ok(b) => {
                    &&& b.stones_of(color) == own2
                    &&& b.stones_of(color.opposite()) == opp2
                    &&& b@.2 == (self@.2 ^ h.entry(p, color)) ^ stones_hash(
                        h,
                        opp.difference(opp2),
                        color.opposite(),
                    )
                },
                Err(_) => false,
            },
        }
    }

    /// Plays a single stone.
    /// Returns next board state if the move was valid, Err if was invalid.
    pub fn play_stone(&self, pos: Position, color: Color, hasher: &ZobristHasher) -> (r: Result<
        Board,
        MoveError,
    >)
        requires
            hasher@.0 == BOARD_SIZE,
        ensures
            self.play_result(pos, color, *hasher, r),
            r matches Ok(b) ==> stones_valid(b@.0, b@.1),
    {
        proof {
            use_type_invariant(self);
            lemma_valid_pair(self@.0, self@.1);
        }
        let ghost p = (pos.row as int, pos.col as int);
        let ghost own0 = self.stones_of(color);
        let ghost opp0 = self.stones_of(color.opposite());
        proof {
            assert(own0.union(opp0) =~= self@.0.union(self@.1));
            assert(valid_pair(own0, opp0));
        }
        if pos.row >= Self::SIZE || pos.col >= Self::SIZE {
            return Err(MoveError::NonEmptyPosition);
        }
        let empty = self.empty_positions();
        let hash = self.hash.combine(hasher.stone(pos, color));
        let current_move = Bitboard16::single(pos);
        if current_move.intersection(&empty).is_empty() {
            proof {
                if empty@.contains(p) {
                    assert(current_move@.intersect(empty@).contains(p));
                }
            }
            return Err(MoveError::NonEmptyPosition);
        }
        proof {
            crate::bitboard::lemma_nonempty(current_move@.intersect(empty@));
            let w = choose|w: (int, int)| current_move@.intersect(empty@).contains(w);
            assert(empty@.contains(p));
        }
        let neighbors = current_move.dilate();
        let (own, opponents) = self.stones.into_perspective(color);
        let own = own.union(&current_move);
        let empty = empty.intersection(&current_move.complement());
        let opponents_color = color.not();
        let ghost empty2 = empty@;
        proof {
            assert(empty2 =~= board_cells().difference(own0.union(opp0)).remove(p));
            assert(own@ =~= own0.insert(p));
        }
        let (opponents, empty, hash) = if neighbors.intersection(&opponents).is_empty() {
            proof {
                assert(neighbors@.disjoint(opp0)) by {
                    assert forall|z: (int, int)| neighbors@.contains(z) implies !opp0.contains(z) by {
                        assert(!neighbors@.intersect(opponents@).contains(z));
                    }
                }
                lemma_no_capture(own0, opp0, p);
                assert(opp0.difference(opp0) =~= Set::<(int, int)>::empty());
                crate::zobrist::lemma_stones_hash_empty(*hasher, opponents_color);
                lemma_xor_facts(hash@, 0, 0);
                assert(empty@.union(opp0.difference(opp0)) =~= empty@);
            }
            (opponents, empty, hash)
        } else {
            let live = opponents.intersection(&empty.dilate()).flood_fill(opponents);
            let captured = opponents.intersection(&live.complement());
            proof {
                lemma_flood_bounds(opp0.intersect(dilation(empty2)), opp0);
                assert(captured@ =~= opp0.difference(live@));
                assert forall|q: (int, int)| #[trigger] captured@.contains(q) implies q.0 < hasher@.0 && q.1 < hasher@.0 by {
                    assert(opp0.contains(q));
                }
            }
            let hash = hasher.hash_stones(&captured, opponents_color, hash);
            (live, empty.union(&captured), hash)
        };
        proof {
            assert(opponents@ == flood(opp0.intersect(dilation(empty2)), opp0));
            assert(empty@ == empty2.union(opp0.difference(opponents@)));
        }
        if neighbors.intersection(&empty).is_empty() {
            let group = current_move.flood_fill(own);
            let liberties = group.dilate().intersection(&empty);
            if liberties.is_empty() {
                proof {
                    assert(dilation(group@).disjoint(empty@)) by {
                        assert forall|z: (int, int)| dilation(group@).contains(z) implies !empty@.contains(z) by {
                            assert(!liberties@.contains(z));
                        }
                    }
                }
                return Err(MoveError::Suicide);
            }
            proof {
                crate::bitboard::lemma_nonempty(liberties@);
                let w = choose|w: (int, int)| liberties@.contains(w);
                assert(!dilation(group@).disjoint(empty@));
            }
        } else {
            proof {
                crate::bitboard::lemma_nonempty(neighbors@.intersect(empty@));
                let w = choose|w: (int, int)| neighbors@.intersect(empty@).contains(w);
                assert(!dilation(set![p]).disjoint(empty@));
                lemma_not_suicide(own@, empty@, p);
            }
        }
        proof {
            assert(play_outcome(own0, opp0, p) == Ok::<(Set<(int, int)>, Set<(int, int)>), MoveError>(
                (own@, opponents@),
            ));
            lemma_play_keeps_valid(own0, opp0, p);
            lemma_valid_pair(own@, opponents@);
        }
        let stones = ColorMap::from_perspective(color, own, opponents);
        proof {
            if color == Color::White {
                lemma_valid_pair(opponents@, own@);
            }
            assert(stones_valid(stones@.0@, stones@.1@));
        }
        Ok(Board { stones, hash })
    }
}

/// The cells of `q`, in order, on which the side with stones `own` may play against `opp`.
pub open spec fn legal_among(own: Set<(int, int)>, opp: Set<(int, int)>, q: Seq<(int, int)>) -> Seq<
    (int, int),
>
    decreases q.len(),
{
    if q.len() == 0 {
        Seq::empty()
    } else {
        let prev = legal_among(own, opp, q.drop_last());
        if play_outcome(own, opp, q.last()) is Ok {
            prev.push(q.last())
        } else {
            prev
        }
    }
}

impl Board {
    /// The cells on which `color` may play, in row-major order.
    pub open spec fn legal_cells(self, color: Color) -> Seq<(int, int)> {
        legal_among(
            self.stones_of(color),
            self.stones_of(color.opposite()),
            crate::bitboard::cells(empty_cells(self@.0, self@.1)),
        )
    }

    /// Returns every legal move of `color` with the board it leads to, in row-major order.
    pub fn legal_moves(&self, color: Color, hasher: &ZobristHasher) -> (r: Vec<(Position, Board)>)
        requires
            hasher@.0 == BOARD_SIZE,
        ensures
            r@.len() == self.legal_cells(color).len(),
            forall|i: int|
                0 <= i < r@.len() ==> (#[trigger] r@[i].0.row as int, r@[i].0.col as int)
                    == self.legal_cells(color)[i] && self.play_result(
                    r@[i].0,
                    color,
                    *hasher,
                    Ok(r@[i].1),
                ),
    {
        let positions = self.empty_positions().iter_positions();
        let ghost q = crate::bitboard::cells(empty_cells(self@.0, self@.1));
        let ghost own = self.stones_of(color);
        let ghost opp = self.stones_of(color.opposite());
        let mut result: Vec<(Position, Board)> = Vec::new();
        let mut i: usize = 0;
        proof {
            assert(q.take(0) =~= Seq::<(int, int)>::empty());
        }
        while i < positions.len()
            invariant
                hasher@.0 == BOARD_SIZE,
                own == self.stones_of(color),
                opp == self.stones_of(color.opposite()),
                q == crate::bitboard::cells(empty_cells(self@.0, self@.1)),
                positions@.len() == q.len(),
                forall|k: int|
                    0 <= k < positions@.len() ==> (#[trigger] positions@[k].row as int, positions@[k].col as int) == q[k],
                i <= positions@.len(),
                result@.len() == legal_among(own, opp, q.take(i as int)).len(),
                forall|k: int|
                    0 <= k < result@.len() ==> (#[trigger] result@[k].0.row as int, result@[k].0.col as int)
                        == legal_among(own, opp, q.take(i as int))[k] && self.play_result(
                        result@[k].0,
                        color,
                        *hasher,
                        Ok(result@[k].1),
                    ),
            decreases positions@.len() - i,
        {
            let pos = positions[i];
            let outcome = self.play_stone(pos, color, hasher);
            proof {
                assert(q.take(i + 1).drop_last() =~= q.take(i as int));
                assert(q.take(i + 1).last() == (pos.row as int, pos.col as int));
            }
            let ghost old_result = result@;
            match outcome {
                Ok(board) => {
                    result.push((pos, board));
                    proof {
                        assert(play_outcome(own, opp, q.take(i + 1).last()) is Ok);
                        assert(legal_among(own, opp, q.take(i + 1)) == legal_among(
                            own,
                            opp,
                            q.take(i as int),
                        ).push((pos.row as int, pos.col as int)));
                        assert forall|k: int| 0 <= k < result@.len() implies (#[trigger] result@[k].0.row as int, result@[k].0.col as int)
                            == legal_among(own, opp, q.take(i + 1))[k] && self.play_result(
                            result@[k].0,
                            color,
                            *hasher,
                            Ok(result@[k].1),
                        ) by {
                            if k < old_result.len() {
                                assert(result@[k] == old_result[k]);
                            }
                        }
                    }
                },
                Err(_) => {
                    proof {
                        assert(play_outcome(own, opp, q.take(i + 1).last()) is Err);
                        assert(legal_among(own, opp, q.take(i + 1)) == legal_among(
                            own,
                            opp,
                            q.take(i as int),
                        ));
                    }
                },
            }
            i += 1;
        }
        proof {
            assert(q.take(i as int) =~= q);
        }
        result
    }

    /// One step of random play: tries the `i`-th candidate cell in row-major order.
    /// Plays `color` there when the move is legal; otherwise removes that cell from the
    /// candidates and returns `None`.
    pub fn try_candidate(
        &self,
        color: Color,
        hasher: &ZobristHasher,
        candidates: &mut Bitboard16,
        i: usize,
    ) -> (r: Option<Board>)
        requires
            hasher@.0 == BOARD_SIZE,
            i < old(candidates)@.len(),
        ensures
            old(candidates)@.contains(crate::bitboard::cells(old(candidates)@)[i as int]),
            r is Some <==> play_outcome(
                self.stones_of(color),
                self.stones_of(color.opposite()),
                crate::bitboard::cells(old(candidates)@)[i as int],
            ) is Ok,
            r is Some ==> final(candidates)@ == old(candidates)@ && self.play_result(
                cell_position(crate::bitboard::cells(old(candidates)@)[i as int]),
                color,
                *hasher,
                Ok(r->Some_0),
            ),
            r is None ==> final(candidates)@ == old(candidates)@.remove(
                crate::bitboard::cells(old(candidates)@)[i as int],
            ),
    {
        let positions = candidates.iter_positions();
        let ghost q = crate::bitboard::cells(candidates@);
        proof {
            crate::bitboard::lemma_cells_props(candidates@);
            candidates.lemma_view_in_grid();
            assert(candidates@.intersect(grid()) =~= candidates@);
        }
        let pos = positions[i];
        proof {
            assert((pos.row as int, pos.col as int) == q[i as int]);
            assert(candidates@.contains(q[i as int]));
            assert(cell_position(q[i as int]) == pos);
        }
        match self.play_stone(pos, color, hasher) {
            Ok(b) => Some(b),
            Err(_) => {
                candidates.set(pos, false);
                None
            },
        }
    }

    /// Plays a random legal move of `color`, or returns `None` when `color` has none.
    /// Each draw picks a candidate cell for `try_candidate`, uniformly among those left.
    pub fn play_random_legal_move(
        &self,
        color: Color,
        hasher: &ZobristHasher,
        rng: &mut ThreadRng,
    ) -> (r: Option<Board>)
        requires
            hasher@.0 == BOARD_SIZE,
        ensures
            exists|draws: Seq<int>| #[trigger] self.random_play_gives(color, *hasher, draws, r),
            r is None ==> forall|p: (int, int)|
                play_outcome(self.stones_of(color), self.stones_of(color.opposite()), p) is Err,
            r is Some ==> exists|pos: Position|
                #[trigger] self.play_result(pos, color, *hasher, Ok(r->Some_0)),
    {
        let ghost own = self.stones_of(color);
        let ghost opp = self.stones_of(color.opposite());
        let ghost empty = empty_cells(self@.0, self@.1);
        let mut candidates = self.empty_positions();
        let ghost mut drawn: Seq<int> = Seq::empty();
        proof {
            assert(own.union(opp) =~= self@.0.union(self@.1));
        }
        while !candidates.is_empty()
            invariant
                hasher@.0 == BOARD_SIZE,
                own == self.stones_of(color),
                opp == self.stones_of(color.opposite()),
                empty == empty_cells(self@.0, self@.1),
                empty == board_cells().difference(own.union(opp)),
                candidates@.subset_of(empty),
                forall|p: (int, int)|
                    empty.contains(p) && !candidates@.contains(p) ==> #[trigger] play_outcome(
                        own,
                        opp,
                        p,
                    ) is Err,
                misses(own, opp, empty, drawn, candidates@),
            decreases candidates@.len(),
        {
            let n = candidates.popcnt();
            proof {
                if n == 0 {
                    crate::bitboard::lemma_nonempty(candidates@);
                    let w = choose|w: (int, int)| candidates@.contains(w);
                    assert(candidates@.remove(w).len() == candidates@.len() - 1);
                }
            }
            let i = random_below(rng, n);
            let ghost before = candidates@;
            let outcome = self.try_candidate(color, hasher, &mut candidates, i);
            match outcome {
                Some(new_board) => {
                    let r = Some(new_board);
                    assert(self.play_result(
                        cell_position(crate::bitboard::cells(before)[i as int]),
                        color,
                        *hasher,
                        Ok(r->Some_0),
                    ));
                    proof {
                        let tail = seq![i as int];
                        assert(tail.drop_first() =~= Seq::<int>::empty());
                        lemma_misses_then(own, opp, empty, drawn, before, tail);
                        assert(self.random_play_gives(color, *hasher, drawn + tail, r));
                    }
                    return r;
                },
                None => {
                    proof {
                        vstd::set::axiom_set_remove_len(before, crate::bitboard::cells(before)[i as int]);
                        lemma_misses_push(own, opp, empty, drawn, before, i as int);
                        drawn = drawn.push(i as int);
                    }
                },
            }
        }
        proof {
            assert forall|p: (int, int)| #[trigger] play_outcome(own, opp, p) is Err by {
                if empty.contains(p) {
                    assert(!candidates@.contains(p));
                }
            }
            assert(candidates@ =~= Set::<(int, int)>::empty());
            lemma_misses_then(own, opp, empty, drawn, candidates@, Seq::empty());
            assert(drawn + Seq::<int>::empty() =~= drawn);
            assert(self.random_play_gives(color, *hasher, drawn, None));
        }
        None
    }

    /// `r` is what random play of `color` gives with the draws `draws`: each draw lies below
    /// the number of candidate cells left at its turn, and the run ends exactly when a
    /// move is played or no candidate is left (see `random_run_valid`).
    pub open spec fn random_play_gives(
        self,
        color: Color,
        h: ZobristHasher,
        draws: Seq<int>,
        r: Option<Board>,
    ) -> bool {
        let own = self.stones_of(color);
        let opp = self.stones_of(color.opposite());
        let c = empty_cells(self@.0, self@.1);
        &&& random_run_valid(own, opp, c, draws)
        &&& match random_run_cell(own, opp, c, draws) {
            None => r is None,
            Some(p) => r matches Some(b) && self.play_result(cell_position(p), color, h, Ok(b)),
        }
    }
}

/// A run of random play over the candidate cells `c`, for the side with stones `own`
/// against `opp`: each draw `d` tries the `d`-th candidate in row-major order; a legal
/// cell is played and ends the run, an illegal one leaves the candidates. The run is
/// valid when every draw lies below the number of candidates left at its turn, and the
/// draws end exactly when a move is played or no candidate is left.
pub open spec fn random_run_valid(
    own: Set<(int, int)>,
    opp: Set<(int, int)>,
    c: Set<(int, int)>,
    draws: Seq<int>,
) -> bool
    decreases draws.len(),
{
    if draws.len() == 0 {
        c.len() == 0
    } else {
        let p = crate::bitboard::cells(c)[draws[0]];
        &&& 0 <= draws[0] < c.len()
        &&& if play_outcome(own, opp, p) is Ok {
            draws.len() == 1
        } else {
            random_run_valid(own, opp, c.remove(p), draws.drop_first())
        }
    }
}

/// The cell that a run of random play with `draws` plays, if any (see `random_run_valid`).
pub open spec fn random_run_cell(
    own: Set<(int, int)>,
    opp: Set<(int, int)>,
    c: Set<(int, int)>,
    draws: Seq<int>,
) -> Option<(int, int)>
    decreases draws.len(),
{
    if draws.len() == 0 {
        None
    } else {
        let p = crate::bitboard::cells(c)[draws[0]];
        if play_outcome(own, opp, p) is Ok {
            Some(p)
        } else {
            random_run_cell(own, opp, c.remove(p), draws.drop_first())
        }
    }
}

/// The draws each try an illegal cell among those left, and `rest` is left after them.
pub open spec fn misses(
    own: Set<(int, int)>,
    opp: Set<(int, int)>,
    c: Set<(int, int)>,
    draws: Seq<int>,
    rest: Set<(int, int)>,
) -> bool
    decreases draws.len(),
{
    if draws.len() == 0 {
        rest == c
    } else {
        let p = crate::bitboard::cells(c)[draws[0]];
        &&& 0 <= draws[0] < c.len()
        &&& play_outcome(own, opp, p) is Err
        &&& misses(own, opp, c.remove(p), draws.drop_first(), rest)
    }
}

/// One more missed draw extends a run of misses.
proof fn lemma_misses_push(
    own: Set<(int, int)>,
    opp: Set<(int, int)>,
    c: Set<(int, int)>,
    draws: Seq<int>,
    rest: Set<(int, int)>,
    d: int,
)
    requires
        misses(own, opp, c, draws, rest),
        0 <= d < rest.len(),
        play_outcome(own, opp, crate::bitboard::cells(rest)[d]) is Err,
    ensures
        misses(own, opp, c, draws.push(d), rest.remove(crate::bitboard::cells(rest)[d])),
    decreases draws.len(),
{
    let q = crate::bitboard::cells(rest)[d];
    if draws.len() == 0 {
        assert(rest == c);
        assert(draws.push(d)[0] == d);
        assert(draws.push(d).drop_first() =~= Seq::<int>::empty());
        assert(misses(own, opp, c.remove(q), Seq::<int>::empty(), rest.remove(q)));
    } else {
        let p = crate::bitboard::cells(c)[draws[0]];
        lemma_misses_push(own, opp, c.remove(p), draws.drop_first(), rest, d);
        assert(draws.push(d)[0] == draws[0]);
        assert(draws.push(d).drop_first() =~= draws.drop_first().push(d));
    }
}

/// After a run of misses, random play goes on from the cells left.
proof fn lemma_misses_then(
    own: Set<(int, int)>,
    opp: Set<(int, int)>,
    c: Set<(int, int)>,
    draws: Seq<int>,
    rest: Set<(int, int)>,
    tail: Seq<int>,
)
    requires
        misses(own, opp, c, draws, rest),
    ensures
        random_run_valid(own, opp, c, draws + tail) == random_run_valid(own, opp, rest, tail),
        random_run_cell(own, opp, c, draws + tail) == random_run_cell(own, opp, rest, tail),
    decreases draws.len(),
{
    if draws.len() == 0 {
        assert(draws + tail =~= tail);
    } else {
        let p = crate::bitboard::cells(c)[draws[0]];
        lemma_misses_then(own, opp, c.remove(p), draws.drop_first(), rest, tail);
        assert((draws + tail).drop_first() =~= draws.drop_first() + tail);
        assert((draws + tail)[0] == draws[0]);
    }
}

/// Every legal move can come out of random play: a first draw of its index among the
/// empty cells plays it.
pub proof fn lemma_random_play_reaches(board: Board, color: Color, h: ZobristHasher, pos: Position, b: Board)
    requires
        board.play_result(pos, color, h, Ok(b)),
    ensures
        exists|draws: Seq<int>| #[trigger] board.random_play_gives(color, h, draws, Some(b)),
{
    let own = board.stones_of(color);
    let opp = board.stones_of(color.opposite());
    let c = empty_cells(board@.0, board@.1);
    let p = (pos.row as int, pos.col as int);
    assert(own.union(opp) =~= board@.0.union(board@.1));
    assert(c.contains(p));
    crate::bitboard::lemma_cells_props(c);
    assert(c.intersect(grid()) =~= c);
    assert(crate::bitboard::cells(c).contains(p));
    let j = choose|j: int| 0 <= j < crate::bitboard::cells(c).len() && crate::bitboard::cells(c)[j] == p;
    let draws = seq![j];
    assert(draws.drop_first() =~= Seq::<int>::empty());
    assert(cell_position(p) == pos);
    assert(board.random_play_gives(color, h, draws, Some(b)));
}

/// The position of a cell of the grid.
pub open spec fn cell_position(p: (int, int)) -> Position {
    Position { row: p.0 as usize, col: p.1 as usize }
}

/// Total size of a sequence of sets.
pub open spec fn sum_lens(gs: Seq<Set<(int, int)>>) -> int
    decreases gs.len(),
{
    if gs.len() == 0 {
        0
    } else {
        sum_lens(gs.drop_last()) + gs.last().len()
    }
}

/// Total size of the groups of `gs` next to `near_own` and not next to `near_opp`.
pub open spec fn territory(
    gs: Seq<Set<(int, int)>>,
    near_own: Set<(int, int)>,
    near_opp: Set<(int, int)>,
) -> int
    decreases gs.len(),
{
    if gs.len() == 0 {
        0
    } else {
        let g = gs.last();
        territory(gs.drop_last(), near_own, near_opp) + if !g.disjoint(near_own) && g.disjoint(
            near_opp,
        ) {
            g.len() as int
        } else {
            0
        }
    }
}

/// Score of a side: its stones, and the empty regions bordering only its stones.
pub open spec fn score_of(own: Set<(int, int)>, opp: Set<(int, int)>) -> int {
    own.len() + territory(
        crate::bitboard::groups(board_cells().difference(own.union(opp))),
        dilation(own),
        dilation(opp),
    )
}

proof fn lemma_sum_lens_append(a: Seq<Set<(int, int)>>, b: Seq<Set<(int, int)>>)
    ensures
        sum_lens(a + b) == sum_lens(a) + sum_lens(b),
    decreases b.len(),
{
    if b.len() == 0 {
        assert(a + b =~= a);
    } else {
        lemma_sum_lens_append(a, b.drop_last());
        assert((a + b).drop_last() =~= a + b.drop_last());
    }
}

/// Sizes of the groups of a set of grid cells add up to its size.
pub proof fn lemma_groups_sum_lens(s: Set<(int, int)>, fuel: nat)
    requires
        s.subset_of(grid()),
        s.finite(),
        s.len() <= fuel,
    ensures
        sum_lens(crate::bitboard::groups_upto(s, fuel)) == s.len(),
    decreases fuel,
{
    crate::bitboard::lemma_groups_upto_partition(s, fuel);
    if fuel == 0 || s == Set::<(int, int)>::empty() {
        if s == Set::<(int, int)>::empty() {
            assert(s.len() == 0);
        }
    } else {
        crate::bitboard::lemma_picked_cell(s);
        let p = crate::bitboard::picked_cell(s);
        let g = flood(set![p], s);
        let rest = s.difference(g);
        lemma_flood_bounds(set![p], s);
        assert(g.contains(p));
        vstd::set_lib::lemma_len_subset(g, s);
        assert(rest.len() < s.len()) by {
            broadcast use vstd::set::group_set_axioms;
            assert(rest.subset_of(s.remove(p)));
            vstd::set_lib::lemma_len_subset(rest, s.remove(p));
        }
        lemma_groups_sum_lens(rest, (fuel - 1) as nat);
        lemma_sum_lens_append(seq![g], crate::bitboard::groups_upto(rest, (fuel - 1) as nat));
        assert(seq![g].drop_last() =~= Seq::<Set<(int, int)>>::empty());
        assert(seq![g].last() == g);
        assert(sum_lens(Seq::<Set<(int, int)>>::empty()) == 0);
        assert(sum_lens(seq![g]) == g.len());
        assert(crate::bitboard::groups_upto(s, fuel) == seq![g] + crate::bitboard::groups_upto(
            rest,
            (fuel - 1) as nat,
        ));
        vstd::set_lib::lemma_len_subset(rest, s);
        vstd::set_lib::lemma_set_disjoint_lens(g, rest);
        assert(g + rest =~= s);
        assert(rest.len() == s.len() - g.len());
    }
}

proof fn lemma_territory_bound(gs: Seq<Set<(int, int)>>, a: Set<(int, int)>, b: Set<(int, int)>)
    ensures
        0 <= territory(gs, a, b),
        territory(gs, a, b) + territory(gs, b, a) <= sum_lens(gs),
    decreases gs.len(),
{
    if gs.len() > 0 {
        lemma_territory_bound(gs.drop_last(), a, b);
    }
}

proof fn lemma_sum_lens_prefix(gs: Seq<Set<(int, int)>>, i: int)
    requires
        0 <= i <= gs.len(),
    ensures
        sum_lens(gs.take(i)) <= sum_lens(gs),
        0 <= sum_lens(gs.take(i)),
    decreases gs.len(),
{
    if i < gs.len() {
        lemma_sum_lens_prefix(gs.drop_last(), i);
        assert(gs.drop_last().take(i) =~= gs.take(i));
    } else {
        assert(gs.take(i) =~= gs);
        lemma_sum_lens_nonneg(gs);
    }
}

proof fn lemma_sum_lens_nonneg(gs: Seq<Set<(int, int)>>)
    ensures
        0 <= sum_lens(gs),
    decreases gs.len(),
{
    if gs.len() > 0 {
        lemma_sum_lens_nonneg(gs.drop_last());
    }
}

fn dilate_stones(stones: &Bitboard16) -> (d: Bitboard16)
    ensures
        d@ == dilation(stones@),
{
    stones.dilate()
}

fn count_stones(stones: &Bitboard16) -> (n: usize)
    ensures
        n == stones@.len(),
{
    stones.popcnt()
}

impl Board {
    /// Area score of each color: its stones plus the empty regions that border only its stones.
    pub fn score(&self) -> (r: ColorMap<usize>)
        ensures
            r.at(Color::Black) == score_of(self@.0, self@.1),
            r.at(Color::White) == score_of(self@.1, self@.0),
    {
        let neighbors = self.stones.map_ref(dilate_stones);
        let counts = self.stones.map_ref(count_stones);
        let near_black = *neighbors.get(Color::Black);
        let near_white = *neighbors.get(Color::White);
        let mut black_score = *counts.get(Color::Black);
        let mut white_score = *counts.get(Color::White);
        let empty = self.empty_positions();
        let groups = empty.iter_groups();
        let ghost gs = crate::bitboard::groups(empty@);
        let ghost black = self@.0;
        let ghost white = self@.1;
        proof {
            crate::bitboard::lemma_cells_props(empty@);
            empty.lemma_view_in_grid();
            assert(empty@.intersect(grid()) =~= empty@);
            crate::bitboard::lemma_cells_len_mono(empty@, empty@);
            lemma_groups_sum_lens(empty@, 256);
            self.stones@.0.lemma_view_in_grid();
            self.stones@.1.lemma_view_in_grid();
            crate::bitboard::lemma_cells_len_mono(black, black);
            crate::bitboard::lemma_cells_len_mono(white, white);
            crate::bitboard::lemma_cells_props(black);
            crate::bitboard::lemma_cells_props(white);
            assert(black.intersect(grid()) =~= black);
            assert(white.intersect(grid()) =~= white);
            assert(gs.take(0) =~= Seq::<Set<(int, int)>>::empty());
            assert(empty@ == board_cells().difference(black.union(white)));
            assert(board_cells().difference(white.union(black)) =~= empty@);
        }
        let mut i: usize = 0;
        while i < groups.len()
            invariant
                groups@.len() == gs.len(),
                forall|k: int| 0 <= k < groups@.len() ==> #[trigger] groups@[k]@ == gs[k],
                sum_lens(gs) <= 256,
                black.len() <= 256,
                white.len() <= 256,
                near_black@ == dilation(black),
                near_white@ == dilation(white),
                i <= groups@.len(),
                black_score == black.len() + territory(gs.take(i as int), dilation(black), dilation(white)),
                white_score == white.len() + territory(gs.take(i as int), dilation(white), dilation(black)),
            decreases groups@.len() - i,
        {
            let group = groups[i];
            proof {
                assert(gs.take(i + 1).drop_last() =~= gs.take(i as int));
                lemma_territory_bound(gs.take(i + 1), dilation(black), dilation(white));
                lemma_sum_lens_prefix(gs, i + 1);
            }
            let adjacent_black = !group.intersection(&near_black).is_empty();
            let adjacent_white = !group.intersection(&near_white).is_empty();
            proof {
                if group@.disjoint(near_black@) {
                    assert(group@.intersect(near_black@) =~= Set::<(int, int)>::empty());
                } else {
                    let z = choose|z: (int, int)| group@.contains(z) && near_black@.contains(z);
                    assert(group@.intersect(near_black@).contains(z));
                }
                if group@.disjoint(near_white@) {
                    assert(group@.intersect(near_white@) =~= Set::<(int, int)>::empty());
                } else {
                    let z = choose|z: (int, int)| group@.contains(z) && near_white@.contains(z);
                    assert(group@.intersect(near_white@).contains(z));
                }
            }
            if !(adjacent_black && adjacent_white) {
                let size = group.popcnt();
                if adjacent_black {
                    black_score += size;
                }
                if adjacent_white {
                    white_score += size;
                }
            }
            i += 1;
        }
        proof {
            assert(gs.take(i as int) =~= gs);
        }
        ColorMap::from([black_score, white_score])
    }
}

/// The grid of a board as drawn by `format_ascii`: `'x'` for black, `'o'` for white.
pub open spec fn stone_marks(black: Set<(int, int)>, white: Set<(int, int)>) -> Seq<
    Seq<Option<char>>,
> {
    Seq::new(
        16,
        |r: int|
            Seq::new(
                16,
                |c: int|
                    if black.contains((r, c)) {
                        Some('x')
                    } else if white.contains((r, c)) {
                        Some('o')
                    } else {
                        None
                    },
            ),
    )
}

/// Compact text of any stones: every line is empty or ends at a stone (`'x'` or `'o'`),
/// and the text, unless empty, ends at a stone; an empty cell is drawn only before a
/// stone of its row.
pub proof fn lemma_board_text_compact(black: Set<(int, int)>, white: Set<(int, int)>)
    ensures
        lines_end_with(ascii_text(stone_marks(black, white), 0), 'x', 'o'),
{
    let rows = stone_marks(black, white);
    assert forall|r: int, c: int|
        0 <= r < rows.len() && 0 <= c < rows[r].len() && #[trigger] rows[r][c] is Some implies rows[r][c]
            == Some('x') || rows[r][c] == Some('o') by {}
    lemma_compact_text(rows, 'x', 'o');
}

/// What `from_ascii` gives for a text: `'x'` marks black stones, `'o'` white ones.
pub open spec fn ascii_board_result(
    s: Seq<char>,
    h: ZobristHasher,
    r: Result<Board, BoardInvariantError>,
) -> bool {
    let black = marked_cells(s, 'x');
    let white = marked_cells(s, 'o');
    if !black.union(white).subset_of(board_cells()) {
        r == Err::<Board, BoardInvariantError>(BoardInvariantError::StoneOutsideBoard)
    } else {
        match stones_check(black, white) {
            Err(e) => r == Err::<Board, BoardInvariantError>(e),
            Ok(_) => match r {
                Ok(b) => b@ == (black, white, board_hash(h, black, white)),
                Err(_) => false,
            },
        }
    }
}

impl Board {
    /// Generates a viewable string representation of the board.
    /// Empty positions are drawn as `'.'`, black stones as `'x'`, white stones as `'o'`.
    /// If `compact` is `false`, fills all unused places in the 13x13 area by `.`, otherwise only
    /// positions followed by non-empty are printed.
    pub fn format_ascii(&self, compact: bool) -> (s: String)
        ensures
            s@ == ascii_text(
                stone_marks(self@.0, self@.1),
                if compact {
                    0
                } else {
                    BOARD_SIZE as int
                },
            ),
            compact ==> lines_end_with(s@, 'x', 'o'),
    {
        proof {
            lemma_board_text_compact(self@.0, self@.1);
        }
        let black = self.stones.get(Color::Black);
        let white = self.stones.get(Color::White);
        let mut rows: Vec<Vec<Option<char>>> = Vec::new();
        let mut r: usize = 0;
        while r < 16
            invariant
                r <= 16,
                rows@.len() == r,
                black@ == self@.0,
                white@ == self@.1,
                forall|i: int| 0 <= i < r ==> (#[trigger] rows@[i])@ == stone_marks(self@.0, self@.1)[i],
            decreases 16 - r,
        {
            let mut line: Vec<Option<char>> = Vec::new();
            let mut c: usize = 0;
            while c < 16
                invariant
                    r < 16,
                    c <= 16,
                    black@ == self@.0,
                    white@ == self@.1,
                    line@.len() == c,
                    forall|j: int| 0 <= j < c ==> #[trigger] line@[j] == stone_marks(self@.0, self@.1)[r as int][j],
                decreases 16 - c,
            {
                let pos = Position::new(r, c);
                if black.get(pos) {
                    line.push(Some('x'));
                } else if white.get(pos) {
                    line.push(Some('o'));
                } else {
                    line.push(None);
                }
                c += 1;
            }
            assert(line@ =~= stone_marks(self@.0, self@.1)[r as int]);
            rows.push(line);
            r += 1;
        }
        assert(rows_of(rows@) =~= stone_marks(self@.0, self@.1));
        let pad_to = if compact {
            0
        } else {
            Self::SIZE
        };
        format_ascii_helper(&rows, pad_to)
    }

    /// Builds a board from ascii representation, compatible with `Self::format_ascii`.
    /// Each line in text is a row in the board, 'x' marks black, 'o' marks white,
    /// any other char marks an unset position.
    pub fn from_ascii(s: &str, hasher: &ZobristHasher) -> (r: Result<Board, BoardInvariantError>)
        requires
            hasher@.0 == BOARD_SIZE,
        ensures
            ascii_board_result(s@, *hasher, r),
    {
        let mut black = Bitboard16::new();
        let mut white = Bitboard16::new();
        let n = s.unicode_len();
        let mut i: usize = 0;
        let mut row: usize = 0;
        let mut col: usize = 0;
        while i < n
            invariant
                n == s@.len(),
                i <= n,
                (row as int, col as int) == crate::ascii::cursor(s@, i as nat),
                black@ == marked_upto(s@, 'x', i as int),
                white@ == marked_upto(s@, 'o', i as int),
                black@.union(white@).subset_of(board_cells()),
            decreases n - i,
        {
            let (c, next_row, next_col) = step_cursor(s, i, row, col);
            if c == 'x' || c == 'o' {
                if row >= Self::SIZE || col >= Self::SIZE {
                    proof {
                        let p = (row as int, col as int);
                        if c == 'x' {
                            assert(marked_cells(s@, 'x').contains(p));
                        } else {
                            assert(marked_cells(s@, 'o').contains(p));
                        }
                        assert(!board_cells().contains(p));
                    }
                    return Err(BoardInvariantError::StoneOutsideBoard);
                }
                let pos = Position { row, col };
                if c == 'x' {
                    black.set(pos, true);
                } else {
                    white.set(pos, true);
                }
            }
            proof {
                assert(black@ =~= marked_upto(s@, 'x', i + 1));
                assert(white@ =~= marked_upto(s@, 'o', i + 1));
            }
            row = next_row;
            col = next_col;
            i += 1;
        }
        proof {
            assert(black@ =~= marked_cells(s@, 'x'));
            assert(white@ =~= marked_cells(s@, 'o'));
        }
        Board::from_stones(ColorMap::from([black, white]), hasher)
    }

    /// Checks invariants of the board (as documented on `Board`), the hash included.
    pub fn check_invariants(&self, hasher: &ZobristHasher) -> (r: Result<(), BoardInvariantError>)
        requires
            hasher@.0 == BOARD_SIZE,
        ensures
            self.hash_matches(*hasher) ==> r == Ok::<(), BoardInvariantError>(()),
            !self.hash_matches(*hasher) ==> r == Err::<(), BoardInvariantError>(
                BoardInvariantError::WrongHash,
            ),
    {
        proof {
            use_type_invariant(self);
        }
        match check_stone_invariants(&self.stones) {
            Err(e) => {
                return Err(e);
            },
            Ok(()) => {},
        }
        let expected = rehash(&self.stones, hasher);
        if u64::from(self.hash) != u64::from(expected) {
            return Err(BoardInvariantError::WrongHash);
        }
        Ok(())
    }
}

impl Default for Board {
    fn default() -> (r: Board)
        ensures
            r@ == (Set::<(int, int)>::empty(), Set::<(int, int)>::empty(), 0u64),
    {
        Board::new()
    }
}

impl Clone for Board {
    fn clone(&self) -> (r: Board)
        ensures
            r@ == self@,
    {
        proof {
            use_type_invariant(self);
        }
        Board { stones: self.stones, hash: self.hash }
    }
}

/// Reading back the text drawn for a valid board gives the same stones, and the hash
/// of those stones under the hasher used for reading.
pub proof fn lemma_board_ascii_roundtrip(
    black: Set<(int, int)>,
    white: Set<(int, int)>,
    pad_to: int,
    h: ZobristHasher,
    r: Result<Board, BoardInvariantError>,
)
    requires
        stones_valid(black, white),
        0 <= pad_to <= 16,
        ascii_board_result(ascii_text(stone_marks(black, white), pad_to), h, r),
    ensures
        r matches Ok(b) && b@ == (black, white, board_hash(h, black, white)),
{
    let rows = stone_marks(black, white);
    assert forall|i: int| 0 <= i < rows.len() implies crate::ascii::line_len(#[trigger] rows[i], i, pad_to)
        <= rows[i].len() by {
        lemma_line_len_bound(rows[i], i, pad_to);
    }
    lemma_ascii_marks(rows, pad_to, 'x');
    lemma_ascii_marks(rows, pad_to, 'o');
    assert forall|p: (int, int)| drawn_cells(rows, pad_to, 'x').contains(p) <==> black.contains(p) by {
        if black.contains(p) {
            assert(board_cells().contains(p));
            lemma_line_covers(rows[p.0], p.0, pad_to, p.1);
        }
    }
    assert forall|p: (int, int)| drawn_cells(rows, pad_to, 'o').contains(p) <==> white.contains(p) by {
        if white.contains(p) {
            assert(board_cells().contains(p));
            assert(!black.contains(p));
            lemma_line_covers(rows[p.0], p.0, pad_to, p.1);
        }
    }
    assert(drawn_cells(rows, pad_to, 'x') =~= black);
    assert(drawn_cells(rows, pad_to, 'o') =~= white);
}

/// Reading back, as a board, the compact text that the black stones of a valid board draw
/// as a bitboard gives those stones as black, and no white stones.
pub proof fn lemma_bitboard_as_board(
    black: Set<(int, int)>,
    white: Set<(int, int)>,
    h: ZobristHasher,
    r: Result<Board, BoardInvariantError>,
)
    requires
        stones_valid(black, white),
        ascii_board_result(ascii_text(marks(black), 0), h, r),
    ensures
        r matches Ok(b) && b@.0 == black && b@.1 == Set::<(int, int)>::empty(),
{
    let rows = marks(black);
    let none = Set::<(int, int)>::empty();
    assert(black.subset_of(grid()));
    lemma_ascii_roundtrip(black, 0);
    assert forall|i: int| 0 <= i < rows.len() implies crate::ascii::line_len(#[trigger] rows[i], i, 0)
        <= rows[i].len() by {
        lemma_line_len_bound(rows[i], i, 0);
    }
    lemma_ascii_marks(rows, 0, 'o');
    assert(drawn_cells(rows, 0, 'o') =~= none);
    let e1 = empty_cells(black, white);
    let e2 = empty_cells(black, none);
    assert(e1.subset_of(e2));
    lemma_dilation_mono(e1, e2);
    lemma_flood_mono(black.intersect(dilation(e1)), black, black.intersect(dilation(e2)), black);
    lemma_flood_bounds(black.intersect(dilation(e2)), black);
    assert(flood(black.intersect(dilation(e2)), black) =~= black);
    lemma_flood_bounds(none.intersect(dilation(e2)), none);
    assert(flood(none.intersect(dilation(e2)), none) =~= none);
    assert(black.union(none) =~= black);
}

proof fn lemma_xor_update(a: u64, d: u64, c: u64, e: u64)
    by (bit_vector)
    ensures
        ((a ^ (d ^ c)) ^ e) ^ c == (a ^ e) ^ d,
        (((d ^ c) ^ a) ^ e) ^ c == d ^ (a ^ e),
{
}

/// With a table filled from a seed, a single black stone and a single white stone on the
/// same cell give different board hashes.
pub proof fn lemma_stone_color_changes_hash(h: ZobristHasher, seed: u64, p: (int, int))
    requires
        h.wf(),
        table_from_seed(h@.1, seed),
        h@.0 == BOARD_SIZE,
        board_cells().contains(p),
    ensures
        board_hash(h, set![p], Set::<(int, int)>::empty()) != board_hash(
            h,
            Set::<(int, int)>::empty(),
            set![p],
        ),
{
    lemma_stones_hash_single(h, p, Color::Black);
    lemma_stones_hash_single(h, p, Color::White);
    lemma_stones_hash_empty(h, Color::Black);
    lemma_stones_hash_empty(h, Color::White);
    lemma_xor_facts(h.entry(p, Color::Black), 0, 0);
    lemma_xor_facts(h.entry(p, Color::White), 0, 0);
    lemma_entries_distinct(h, seed, p, Color::Black, p, Color::White);
}

/// A move keeps the stored hash equal to the hash of the stones.
pub proof fn lemma_play_keeps_hash(
    board: Board,
    pos: Position,
    color: Color,
    h: ZobristHasher,
    r: Result<Board, MoveError>,
)
    requires
        board.hash_matches(h),
        board.play_result(pos, color, h, r),
        r is Ok,
    ensures
        r->Ok_0.hash_matches(h),
{
    let own = board.stones_of(color);
    let opp = board.stones_of(color.opposite());
    let p = (pos.row as int, pos.col as int);
    let b = r->Ok_0;
    assert(play_outcome(own, opp, p) is Ok);
    let own2 = own.insert(p);
    let empty = board_cells().difference(own.union(opp));
    let opp2 = flood(opp.intersect(dilation(empty.remove(p))), opp);
    let captured = opp.difference(opp2);
    lemma_flood_bounds(opp.intersect(dilation(empty.remove(p))), opp);
    assert(b.stones_of(color) == own2);
    assert(b.stones_of(color.opposite()) == opp2);
    crate::zobrist::lemma_stones_hash_union(h, own, set![p], color);
    crate::zobrist::lemma_stones_hash_single(h, p, color);
    assert(own.union(set![p]) =~= own2);
    crate::zobrist::lemma_stones_hash_union(h, opp2, captured, color.opposite());
    assert(opp2.union(captured) =~= opp);
    let a = stones_hash(h, own, color);
    let d = stones_hash(h, opp2, color.opposite());
    let c = stones_hash(h, captured, color.opposite());
    let e = h.entry(p, color);
    lemma_xor_update(a, d, c, e);
}

/// A refused move: a non-empty position is one not on the board or taken, and a suicide
/// is a move on an empty position with no empty neighbour.
pub proof fn lemma_move_errors(own: Set<(int, int)>, opp: Set<(int, int)>, p: (int, int))
    ensures
        play_outcome(own, opp, p) == Err::<(Set<(int, int)>, Set<(int, int)>), MoveError>(
            MoveError::NonEmptyPosition,
        ) <==> !board_cells().difference(own.union(opp)).contains(p),
        play_outcome(own, opp, p) == Err::<(Set<(int, int)>, Set<(int, int)>), MoveError>(
            MoveError::Suicide,
        ) ==> dilation(set![p]).intersect(board_cells().difference(own.union(opp))) == set![p],
        play_outcome(own, opp, p) != Err::<(Set<(int, int)>, Set<(int, int)>), MoveError>(
            MoveError::Ko,
        ),
{
    let empty = board_cells().difference(own.union(opp));
    if play_outcome(own, opp, p) == Err::<(Set<(int, int)>, Set<(int, int)>), MoveError>(
        MoveError::Suicide,
    ) {
        let own2 = own.insert(p);
        let empty2 = empty.remove(p);
        let live = flood(opp.intersect(dilation(empty2)), opp);
        let empty3 = empty2.union(opp.difference(live));
        assert(dilation(flood(set![p], own2)).disjoint(empty3));
        assert forall|q: (int, int)| dilation(set![p]).intersect(empty).contains(q) implies q == p by {
            if q != p {
                lemma_not_suicide(own2, empty3, p);
                assert(dilation(set![p]).contains(q) && empty3.contains(q));
            }
        }
        assert(dilation(set![p]).intersect(empty) =~= set![p]);
    }
}

/// A move only removes opponent stones, and only whole groups: each group of captured
/// stones had the move's position as its only liberty.
pub proof fn lemma_captured_groups(own: Set<(int, int)>, opp: Set<(int, int)>, p: (int, int))
    requires
        valid_pair(own, opp),
        play_outcome(own, opp, p) is Ok,
    ensures
        play_outcome(own, opp, p)->Ok_0.1.subset_of(opp),
        forall|x: (int, int)|
            #![trigger opp.difference(play_outcome(own, opp, p)->Ok_0.1).contains(x)]
            opp.difference(play_outcome(own, opp, p)->Ok_0.1).contains(x) ==> dilation(
                flood(set![x], opp.difference(play_outcome(own, opp, p)->Ok_0.1)),
            ).intersect(board_cells().difference(own.union(opp))) == set![p],
{
    let empty = board_cells().difference(own.union(opp));
    let empty2 = empty.remove(p);
    let seed = opp.intersect(dilation(empty2));
    let live = flood(seed, opp);
    let captured = opp.difference(live);
    assert(play_outcome(own, opp, p)->Ok_0.1 == live);
    lemma_flood_bounds(seed, opp);
    assert forall|x: (int, int)| #![trigger captured.contains(x)] captured.contains(x) implies dilation(
        flood(set![x], captured),
    ).intersect(empty) == set![p] by {
        let c = flood(set![x], opp);
        let g = flood(set![x], captured);
        // the whole component of x within the opponents is captured
        assert forall|y: (int, int)| c.contains(y) implies captured.contains(y) by {
            lemma_flood_bounds(set![x], opp);
            if live.contains(y) {
                crate::bitboard::lemma_flood_same_component(x, y, opp);
                lemma_flood_bounds(set![y], opp);
                lemma_flood_absorbs(seed, set![y], opp);
                assert(set![x].intersect(opp).contains(x));
                assert(live.contains(x));
            }
        }
        lemma_flood_within(set![x], opp, set![x], captured);
        lemma_flood_mono(set![x], captured, set![x], opp);
        assert(g =~= c);
        lemma_flood_bounds(set![x], opp);
        // an empty neighbour other than p would keep the group alive
        assert forall|e: (int, int)| dilation(g).intersect(empty).contains(e) implies e == p by {
            if e != p {
                assert(!g.contains(e));
                assert(touches(g, e));
                let z = if g.contains((e.0 - 1, e.1)) {
                    (e.0 - 1, e.1)
                } else if g.contains((e.0 + 1, e.1)) {
                    (e.0 + 1, e.1)
                } else if g.contains((e.0, e.1 - 1)) {
                    (e.0, e.1 - 1)
                } else {
                    (e.0, e.1 + 1)
                };
                assert(captured.contains(z));
                assert(in_grid(z));
                assert(dilation(empty2).contains(z));
                assert(seed.contains(z));
                assert(seed.intersect(opp).contains(z));
            }
        }
        // the group had a liberty before the move, which can only have been p
        assert(has_liberties(opp, empty));
        assert(flood(opp.intersect(dilation(empty)), opp).contains(x));
        let old_seed = opp.intersect(dilation(empty));
        let n = choose|n: nat| #[trigger] crate::bitboard::reach(old_seed, opp, n).contains(x);
        lemma_seed_of(old_seed, opp, n, x);
        let z = choose|z: (int, int)| old_seed.contains(z) && flood(set![z], opp).contains(x);
        lemma_flood_bounds(set![z], opp);
        crate::bitboard::lemma_flood_same_component(z, x, opp);
        crate::bitboard::lemma_flood_same_component(x, z, opp);
        assert(c.contains(z));
        assert(!empty.contains(z));
        assert(touches(empty, z));
        let e = if empty.contains((z.0 - 1, z.1)) {
            (z.0 - 1, z.1)
        } else if empty.contains((z.0 + 1, z.1)) {
            (z.0 + 1, z.1)
        } else if empty.contains((z.0, z.1 - 1)) {
            (z.0, z.1 - 1)
        } else {
            (z.0, z.1 + 1)
        };
        assert(dilation(g).contains(e));
        assert(dilation(g).intersect(empty).contains(e));
        assert(e == p);
        assert(dilation(g).intersect(empty) =~= set![p]);
    }
}

/// A cell reached from a seed is reached from a single cell of that seed.
proof fn lemma_seed_of(seed: Set<(int, int)>, mask: Set<(int, int)>, n: nat, x: (int, int))
    requires
        crate::bitboard::reach(seed, mask, n).contains(x),
    ensures
        exists|z: (int, int)| seed.contains(z) && flood(set![z], mask).contains(x),
    decreases n,
{
    if n == 0 {
        assert(crate::bitboard::reach(set![x], mask, 0).contains(x));
        assert(flood(set![x], mask).contains(x));
    } else {
        let prev = crate::bitboard::reach(seed, mask, (n - 1) as nat);
        if prev.contains(x) {
            lemma_seed_of(seed, mask, (n - 1) as nat, x);
        } else {
            assert(touches(prev, x));
            let y = if prev.contains((x.0 - 1, x.1)) {
                (x.0 - 1, x.1)
            } else if prev.contains((x.0 + 1, x.1)) {
                (x.0 + 1, x.1)
            } else if prev.contains((x.0, x.1 - 1)) {
                (x.0, x.1 - 1)
            } else {
                (x.0, x.1 + 1)
            };
            lemma_seed_of(seed, mask, (n - 1) as nat, y);
            let z = choose|z: (int, int)| seed.contains(z) && flood(set![z], mask).contains(y);
            assert(touches(flood(set![z], mask), x));
            lemma_flood_closed(set![z], mask, x);
        }
    }
}

proof fn lemma_legal_among(own: Set<(int, int)>, opp: Set<(int, int)>, q: Seq<(int, int)>)
    ensures
        forall|x: (int, int)|
            #[trigger] legal_among(own, opp, q).contains(x) <==> q.contains(x) && play_outcome(
                own,
                opp,
                x,
            ) is Ok,
    decreases q.len(),
{
    if q.len() > 0 {
        lemma_legal_among(own, opp, q.drop_last());
        let prev = legal_among(own, opp, q.drop_last());
        assert forall|x: (int, int)| #[trigger] legal_among(own, opp, q).contains(x) <==> q.contains(x)
            && play_outcome(own, opp, x) is Ok by {
            if q.contains(x) {
                let i = choose|i: int| 0 <= i < q.len() && q[i] == x;
                if i < q.len() - 1 {
                    assert(q.drop_last()[i] == x);
                }
            }
            if q.drop_last().contains(x) {
                let i = choose|i: int| 0 <= i < q.drop_last().len() && q.drop_last()[i] == x;
                assert(q[i] == x);
            }
            if legal_among(own, opp, q).contains(x) && !prev.contains(x) {
                assert(x == q.last());
            }
            if prev.contains(x) {
                let i = choose|i: int| 0 <= i < prev.len() && prev[i] == x;
                if play_outcome(own, opp, q.last()) is Ok {
                    assert(legal_among(own, opp, q)[i] == x);
                }
            }
            if x == q.last() && play_outcome(own, opp, x) is Ok {
                assert(legal_among(own, opp, q).last() == x);
            }
        }
    }
}

/// The legal moves of a color are exactly the positions where playing succeeds; there
/// are none exactly when every move is refused.
pub proof fn lemma_legal_cells(board: Board, color: Color)
    ensures
        forall|x: (int, int)|
            #[trigger] board.legal_cells(color).contains(x) <==> play_outcome(
                board.stones_of(color),
                board.stones_of(color.opposite()),
                x,
            ) is Ok,
        board.legal_cells(color).len() == 0 <==> forall|x: (int, int)|
            play_outcome(board.stones_of(color), board.stones_of(color.opposite()), x) is Err,
{
    let own = board.stones_of(color);
    let opp = board.stones_of(color.opposite());
    let empty = empty_cells(board@.0, board@.1);
    let q = crate::bitboard::cells(empty);
    lemma_legal_among(own, opp, q);
    crate::bitboard::lemma_cells_props(empty);
    assert(own.union(opp) =~= board@.0.union(board@.1));
    assert forall|x: (int, int)| #[trigger] board.legal_cells(color).contains(x) <==> play_outcome(
        own,
        opp,
        x,
    ) is Ok by {
        if play_outcome(own, opp, x) is Ok {
            assert(empty.contains(x));
            assert(in_grid(x));
        }
    }
    if board.legal_cells(color).len() != 0 {
        assert(board.legal_cells(color).contains(board.legal_cells(color)[0]));
    }
    if !(forall|x: (int, int)| play_outcome(own, opp, x) is Err) {
        let x = choose|x: (int, int)| !(play_outcome(own, opp, x) is Err);
        assert(board.legal_cells(color).contains(x));
    }
}

proof fn lemma_row_cells_board(r: int, c: nat)
    requires
        c <= 16,
    ensures
        crate::bitboard::row_cells(board_cells(), r, c).len() == if 0 <= r < 13 {
            if c <= 13 {
                c as int
            } else {
                13
            }
        } else {
            0
        },
    decreases c,
{
    if c > 0 {
        lemma_row_cells_board(r, (c - 1) as nat);
    }
}

proof fn lemma_rows_cells_board(n: nat)
    requires
        n <= 16,
    ensures
        crate::bitboard::rows_cells(board_cells(), n).len() == 13 * (if n <= 13 {
            n as int
        } else {
            13
        }),
    decreases n,
{
    if n > 0 {
        lemma_rows_cells_board((n - 1) as nat);
        lemma_row_cells_board(n - 1, 16);
    }
}

/// The board has 169 cells.
pub proof fn lemma_board_size()
    ensures
        board_cells().finite(),
        board_cells().len() == 169,
{
    lemma_rows_cells_board(16);
    crate::bitboard::lemma_cells_props(board_cells());
    assert(board_cells().intersect(grid()) =~= board_cells());
}

/// Each side scores at least its stones, and both scores together never exceed the board.
pub proof fn lemma_score_bounds(black: Set<(int, int)>, white: Set<(int, int)>)
    requires
        stones_valid(black, white),
    ensures
        score_of(black, white) >= black.len(),
        score_of(white, black) >= white.len(),
        score_of(black, white) + score_of(white, black) <= 169,
{
    lemma_valid_pair(black, white);
    lemma_board_size();
    let empty = board_cells().difference(black.union(white));
    assert(board_cells().difference(white.union(black)) =~= empty);
    vstd::set_lib::lemma_len_subset(black, board_cells());
    vstd::set_lib::lemma_len_subset(white, board_cells());
    vstd::set_lib::lemma_len_subset(empty, board_cells());
    vstd::set_lib::lemma_set_disjoint_lens(black, white);
    vstd::set_lib::lemma_set_disjoint_lens(black + white, empty);
    assert((black + white) + empty =~= board_cells());
    crate::bitboard::lemma_cells_props(empty);
    assert(empty.intersect(grid()) =~= empty);
    crate::bitboard::lemma_cells_len_mono(empty, empty);
    lemma_groups_sum_lens(empty, 256);
    lemma_territory_bound(crate::bitboard::groups(empty), dilation(black), dilation(white));
    lemma_territory_bound(crate::bitboard::groups(empty), dilation(white), dilation(black));
}

/// Mirroring a valid board along its main diagonal gives a valid board.
pub proof fn lemma_valid_transposed(black: Set<(int, int)>, white: Set<(int, int)>)
    requires
        stones_valid(black, white),
    ensures
        stones_valid(transposed(black), transposed(white)),
{
    let tb = transposed(black);
    let tw = transposed(white);
    let empty = empty_cells(black, white);
    let tempty = empty_cells(tb, tw);
    assert(tempty =~= transposed(empty));
    lemma_dilation_transposed(empty);
    assert(tb.intersect(dilation(tempty)) =~= transposed(black.intersect(dilation(empty))));
    assert(tw.intersect(dilation(tempty)) =~= transposed(white.intersect(dilation(empty))));
    lemma_flood_transposed(black.intersect(dilation(empty)), black);
    lemma_flood_transposed(white.intersect(dilation(empty)), white);
    assert forall|p: (int, int)| tb.contains(p) implies !tw.contains(p) by {
        assert(black.contains((p.1, p.0)));
    }
    assert forall|p: (int, int)| tb.contains(p) implies board_cells().contains(p) by {
        assert(black.contains((p.1, p.0)));
    }
    assert forall|p: (int, int)| tw.contains(p) implies board_cells().contains(p) by {
        assert(white.contains((p.1, p.0)));
    }
}

/// Playing on a mirrored board gives the mirrored outcome.
pub proof fn lemma_play_transposed(own: Set<(int, int)>, opp: Set<(int, int)>, p: (int, int))
    ensures
        play_outcome(transposed(own), transposed(opp), (p.1, p.0)) == match play_outcome(
            own,
            opp,
            p,
        ) {
            Ok((a, b)) => Ok((transposed(a), transposed(b))),
            Err(e) => Err(e),
        },
{
    let q = (p.1, p.0);
    let town = transposed(own);
    let topp = transposed(opp);
    let empty = board_cells().difference(own.union(opp));
    let tempty = board_cells().difference(town.union(topp));
    assert(tempty =~= transposed(empty));
    if empty.contains(p) {
        let own2 = own.insert(p);
        let empty2 = empty.remove(p);
        let live = flood(opp.intersect(dilation(empty2)), opp);
        let empty3 = empty2.union(opp.difference(live));
        let group = flood(set![p], own2);
        let town2 = town.insert(q);
        let tempty2 = tempty.remove(q);
        assert(town2 =~= transposed(own2));
        assert(tempty2 =~= transposed(empty2));
        lemma_dilation_transposed(empty2);
        assert(topp.intersect(dilation(tempty2)) =~= transposed(opp.intersect(dilation(empty2))));
        lemma_flood_transposed(opp.intersect(dilation(empty2)), opp);
        let tlive = flood(topp.intersect(dilation(tempty2)), topp);
        assert(tlive == transposed(live));
        let tempty3 = tempty2.union(topp.difference(tlive));
        assert(tempty3 =~= transposed(empty3));
        assert(set![q] =~= transposed(set![p]));
        lemma_flood_transposed(set![p], own2);
        lemma_dilation_transposed(group);
        let tgroup = flood(set![q], town2);
        assert(tgroup == transposed(group));
        assert(dilation(tgroup) == transposed(dilation(group)));
        if dilation(group).disjoint(empty3) {
            assert(dilation(tgroup).disjoint(tempty3));
        } else {
            let e = choose|e: (int, int)| dilation(group).contains(e) && empty3.contains(e);
            assert(dilation(tgroup).contains((e.1, e.0)) && tempty3.contains((e.1, e.0)));
        }
    } else {
        assert(!tempty.contains(q));
    }
}

/// A set of board cells that holds every board cell next to it.
pub open spec fn closed_on_board(c: Set<(int, int)>) -> bool {
    forall|q: (int, int)| board_cells().contains(q) && touches(c, q) ==> #[trigger] c.contains(q)
}

proof fn lemma_closed_row(c: Set<(int, int)>, r: int, a: int, b: int)
    requires
        closed_on_board(c),
        0 <= r < 13,
        0 <= a < 13,
        0 <= b < 13,
        c.contains((r, a)),
    ensures
        c.contains((r, b)),
    decreases if b >= a {
        b - a
    } else {
        a - b
    },
{
    if b > a {
        lemma_closed_row(c, r, a, b - 1);
        assert(touches(c, (r, b)));
    } else if b < a {
        lemma_closed_row(c, r, a, b + 1);
        assert(touches(c, (r, b)));
    }
}

proof fn lemma_closed_col(c: Set<(int, int)>, k: int, a: int, b: int)
    requires
        closed_on_board(c),
        0 <= k < 13,
        0 <= a < 13,
        0 <= b < 13,
        c.contains((a, k)),
    ensures
        c.contains((b, k)),
    decreases if b >= a {
        b - a
    } else {
        a - b
    },
{
    if b > a {
        lemma_closed_col(c, k, a, b - 1);
        assert(touches(c, (b, k)));
    } else if b < a {
        lemma_closed_col(c, k, a, b + 1);
        assert(touches(c, (b, k)));
    }
}

/// The board is connected: a non-empty set of board cells closed under steps between
/// neighbouring board cells is the whole board.
pub proof fn lemma_board_connected(c: Set<(int, int)>, x: (int, int))
    requires
        closed_on_board(c),
        c.contains(x),
        board_cells().contains(x),
    ensures
        board_cells().subset_of(c),
{
    assert forall|q: (int, int)| board_cells().contains(q) implies c.contains(q) by {
        lemma_closed_row(c, x.0, x.1, q.1);
        lemma_closed_col(c, q.1, x.0, q.0);
    }
}

proof fn lemma_territory_all(gs: Seq<Set<(int, int)>>, near: Set<(int, int)>)
    requires
        forall|i: int| 0 <= i < gs.len() ==> !(#[trigger] gs[i]).disjoint(near),
    ensures
        territory(gs, near, Set::<(int, int)>::empty()) == sum_lens(gs),
        territory(gs, Set::<(int, int)>::empty(), near) == 0,
    decreases gs.len(),
{
    if gs.len() > 0 {
        assert forall|i: int| 0 <= i < gs.drop_last().len() implies !(#[trigger] gs.drop_last()[i]).disjoint(
            near,
        ) by {
            assert(gs.drop_last()[i] == gs[i]);
        }
        lemma_territory_all(gs.drop_last(), near);
        assert(!gs[gs.len() - 1].disjoint(near));
        assert(gs.last().disjoint(Set::<(int, int)>::empty()));
        assert(!gs.last().disjoint(Set::<(int, int)>::empty()) == false);
    }
}

/// On a board with stones of one color only, neither empty nor full, that color owns
/// the whole board and the other color scores nothing.
pub proof fn lemma_score_single_color(stones: Set<(int, int)>)
    requires
        stones_valid(stones, Set::<(int, int)>::empty()),
        stones != Set::<(int, int)>::empty(),
        stones != board_cells(),
    ensures
        score_of(stones, Set::<(int, int)>::empty()) == 169,
        score_of(Set::<(int, int)>::empty(), stones) == 0,
{
    let none = Set::<(int, int)>::empty();
    lemma_valid_pair(stones, none);
    lemma_board_size();
    let empty = board_cells().difference(stones.union(none));
    assert(board_cells().difference(none.union(stones)) =~= empty);
    assert(dilation(none) =~= none);
    vstd::set_lib::lemma_len_subset(stones, board_cells());
    vstd::set_lib::lemma_len_subset(empty, board_cells());
    crate::bitboard::lemma_cells_props(empty);
    assert(empty.intersect(grid()) =~= empty);
    crate::bitboard::lemma_cells_len_mono(empty, empty);
    crate::bitboard::lemma_groups_upto_partition(empty, 256);
    lemma_groups_sum_lens(empty, 256);
    let gs = crate::bitboard::groups(empty);
    crate::bitboard::lemma_nonempty(stones);
    let s0 = choose|s0: (int, int)| stones.contains(s0);
    assert forall|i: int| 0 <= i < gs.len() implies !(#[trigger] gs[i]).disjoint(dilation(stones)) by {
        let g = gs[i];
        crate::bitboard::lemma_nonempty(g);
        let x = choose|x: (int, int)| g.contains(x);
        assert(g == flood(set![x], empty));
        if g.disjoint(dilation(stones)) {
            assert forall|q: (int, int)| board_cells().contains(q) && touches(g, q) implies #[trigger] g.contains(
                q,
            ) by {
                let y = if g.contains((q.0 - 1, q.1)) {
                    (q.0 - 1, q.1)
                } else if g.contains((q.0 + 1, q.1)) {
                    (q.0 + 1, q.1)
                } else if g.contains((q.0, q.1 - 1)) {
                    (q.0, q.1 - 1)
                } else {
                    (q.0, q.1 + 1)
                };
                if stones.contains(q) {
                    assert(in_grid(y));
                    assert(dilation(stones).contains(y));
                }
                lemma_flood_closed(set![x], empty, q);
            }
            lemma_board_connected(g, x);
            assert(g.contains(s0));
        }
    }
    lemma_territory_all(gs, dilation(stones));
    vstd::set_lib::lemma_set_disjoint_lens(stones, empty);
    assert(stones + empty =~= board_cells());
}

/// Swapping the colors of all stones swaps the outcome of every move and the scores.
pub proof fn lemma_color_swap(b1: Board, b2: Board, p: (int, int), color: Color)
    requires
        b2@.0 == b1@.1,
        b2@.1 == b1@.0,
    ensures
        play_outcome(b2.stones_of(color.opposite()), b2.stones_of(color), p) == play_outcome(
            b1.stones_of(color),
            b1.stones_of(color.opposite()),
            p,
        ),
        score_of(b2@.0, b2@.1) == score_of(b1@.1, b1@.0),
        score_of(b2@.1, b2@.0) == score_of(b1@.0, b1@.1),
{
}

/// The cells of `s` whose group within `s` borders `a` and not `b`.
pub open spec fn owned_cells(s: Set<(int, int)>, a: Set<(int, int)>, b: Set<(int, int)>) -> Set<
    (int, int),
> {
    Set::new(
        |x: (int, int)|
            s.contains(x) && !flood(set![x], s).disjoint(a) && flood(set![x], s).disjoint(b),
    )
}

proof fn lemma_territory_append(
    g1: Seq<Set<(int, int)>>,
    g2: Seq<Set<(int, int)>>,
    a: Set<(int, int)>,
    b: Set<(int, int)>,
)
    ensures
        territory(g1 + g2, a, b) == territory(g1, a, b) + territory(g2, a, b),
    decreases g2.len(),
{
    if g2.len() == 0 {
        assert(g1 + g2 =~= g1);
    } else {
        lemma_territory_append(g1, g2.drop_last(), a, b);
        assert((g1 + g2).drop_last() =~= g1 + g2.drop_last());
    }
}

/// The territory counted group by group is the number of cells whose group qualifies,
/// whatever the order of the groups.
pub proof fn lemma_territory_cells(
    s: Set<(int, int)>,
    fuel: nat,
    a: Set<(int, int)>,
    b: Set<(int, int)>,
)
    requires
        s.subset_of(grid()),
        s.finite(),
        s.len() <= fuel,
    ensures
        owned_cells(s, a, b).finite(),
        territory(crate::bitboard::groups_upto(s, fuel), a, b) == owned_cells(s, a, b).len(),
    decreases fuel,
{
    vstd::set_lib::lemma_len_subset(owned_cells(s, a, b), s);
    if fuel == 0 || s == Set::<(int, int)>::empty() {
        if s == Set::<(int, int)>::empty() {
            assert(owned_cells(s, a, b) =~= Set::<(int, int)>::empty());
        } else {
            crate::bitboard::lemma_nonempty(s);
            let w = choose|w: (int, int)| s.contains(w);
            assert(s.len() > 0);
        }
    } else {
        crate::bitboard::lemma_picked_cell(s);
        let p = crate::bitboard::picked_cell(s);
        let g = flood(set![p], s);
        let rest = s.difference(g);
        lemma_flood_bounds(set![p], s);
        assert(g.contains(p));
        assert(rest.len() < s.len()) by {
            broadcast use vstd::set::group_set_axioms;
            assert(rest.subset_of(s.remove(p)));
            vstd::set_lib::lemma_len_subset(rest, s.remove(p));
        }
        vstd::set_lib::lemma_len_subset(rest, s);
        vstd::set_lib::lemma_len_subset(g, s);
        lemma_territory_cells(rest, (fuel - 1) as nat, a, b);
        let tail = crate::bitboard::groups_upto(rest, (fuel - 1) as nat);
        assert(crate::bitboard::groups_upto(s, fuel) == seq![g] + tail);
        lemma_territory_append(seq![g], tail, a, b);
        assert(seq![g].drop_last() =~= Seq::<Set<(int, int)>>::empty());
        assert(seq![g].last() == g);
        assert(territory(Seq::<Set<(int, int)>>::empty(), a, b) == 0);
        let qualifies = !g.disjoint(a) && g.disjoint(b);
        assert(territory(seq![g], a, b) == if qualifies {
            g.len() as int
        } else {
            0
        });
        let owned = owned_cells(s, a, b);
        let owned_rest = owned_cells(rest, a, b);
        let head = if qualifies {
            g
        } else {
            Set::<(int, int)>::empty()
        };
        assert forall|x: (int, int)| owned.contains(x) <==> head.contains(x) || owned_rest.contains(x) by {
            if s.contains(x) {
                if g.contains(x) {
                    crate::bitboard::lemma_flood_same_component(p, x, s);
                } else {
                    crate::bitboard::lemma_flood_without_component(p, x, s);
                }
            }
        }
        assert(owned =~= head + owned_rest);
        vstd::set_lib::lemma_set_disjoint_lens(head, owned_rest);
        assert(head.disjoint(owned_rest));
        if !qualifies {
            assert(head.len() == 0);
        }
        assert(owned.len() == head.len() + owned_rest.len());
    }
}

/// Mirroring the board along its diagonal does not change the scores.
pub proof fn lemma_score_transposed(black: Set<(int, int)>, white: Set<(int, int)>)
    requires
        stones_valid(black, white),
    ensures
        score_of(transposed(black), transposed(white)) == score_of(black, white),
{
    lemma_valid_pair(black, white);
    let empty = board_cells().difference(black.union(white));
    let tb = transposed(black);
    let tw = transposed(white);
    let tempty = board_cells().difference(tb.union(tw));
    assert(tempty =~= transposed(empty));
    let swap = |p: (int, int)| (p.1, p.0);
    assert forall|x: Set<(int, int)>| #[trigger] transposed(x) == x.map(swap) by {
        assert forall|p: (int, int)| transposed(x).contains(p) <==> x.map(swap).contains(p) by {
            if transposed(x).contains(p) {
                assert(x.contains(swap(p)) && swap(swap(p)) == p);
            }
        }
        assert(transposed(x) =~= x.map(swap));
    }
    assert(vstd::relations::injective(swap));
    lemma_board_size();
    vstd::set_lib::lemma_len_subset(black, board_cells());
    vstd::set_lib::lemma_len_subset(empty, board_cells());
    vstd::set_lib::lemma_map_size(black, tb, swap);
    // the cells of the empty region whose group borders only black
    let own = owned_cells(empty, dilation(black), dilation(white));
    let town = owned_cells(tempty, dilation(tb), dilation(tw));
    lemma_dilation_transposed(black);
    lemma_dilation_transposed(white);
    assert forall|x: (int, int)| town.contains(x) <==> transposed(own).contains(x) by {
        assert(set![x] =~= transposed(set![(x.1, x.0)]));
        lemma_flood_transposed(set![(x.1, x.0)], empty);
        let f = flood(set![(x.1, x.0)], empty);
        if !f.disjoint(dilation(black)) {
            let z = choose|z: (int, int)| f.contains(z) && dilation(black).contains(z);
            assert(transposed(f).contains((z.1, z.0)) && dilation(tb).contains((z.1, z.0)));
        }
        if !transposed(f).disjoint(dilation(tb)) {
            let z = choose|z: (int, int)| transposed(f).contains(z) && dilation(tb).contains(z);
            assert(f.contains((z.1, z.0)) && dilation(black).contains((z.1, z.0)));
        }
        if !f.disjoint(dilation(white)) {
            let z = choose|z: (int, int)| f.contains(z) && dilation(white).contains(z);
            assert(transposed(f).contains((z.1, z.0)) && dilation(tw).contains((z.1, z.0)));
        }
        if !transposed(f).disjoint(dilation(tw)) {
            let z = choose|z: (int, int)| transposed(f).contains(z) && dilation(tw).contains(z);
            assert(f.contains((z.1, z.0)) && dilation(white).contains((z.1, z.0)));
        }
    }
    assert(town =~= transposed(own));
    crate::bitboard::lemma_cells_props(empty);
    assert(empty.intersect(grid()) =~= empty);
    crate::bitboard::lemma_cells_len_mono(empty, empty);
    lemma_territory_cells(empty, 256, dilation(black), dilation(white));
    crate::bitboard::lemma_cells_props(tempty);
    assert(tempty.intersect(grid()) =~= tempty);
    crate::bitboard::lemma_cells_len_mono(tempty, tempty);
    vstd::set_lib::lemma_len_subset(tempty, board_cells());
    lemma_territory_cells(tempty, 256, dilation(tb), dilation(tw));
    vstd::set_lib::lemma_map_size(own, town, swap);
}

} // verus!
