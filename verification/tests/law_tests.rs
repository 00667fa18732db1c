use bobot::{
    Bitboard16, Board, BoardInvariantError, Color, ColorMap, MoveError, Position, Splitmix64,
    ZobristHasher,
};

fn random_bitboard(rng: &mut Splitmix64, density: u64, size: usize) -> Bitboard16 {
    let mut bb = Bitboard16::new();
    for r in 0..size {
        for c in 0..size {
            if rng.next() % 100 < density {
                bb.set(Position::new(r, c), true);
            }
        }
    }
    bb
}

fn samples() -> Vec<Bitboard16> {
    let mut rng = Splitmix64::with_seed(2024);
    let mut v = vec![Bitboard16::new(), !Bitboard16::new()];
    for density in [5, 20, 40, 50, 60, 80, 95] {
        for _ in 0..4 {
            v.push(random_bitboard(&mut rng, density, 16));
        }
    }
    v
}

fn transpose(bb: Bitboard16) -> Bitboard16 {
    let mut output = Bitboard16::new();
    for pos in bb.iter_positions() {
        output.set(Position::new(pos.col, pos.row), true);
    }
    output
}

fn dilate_reference(bb: Bitboard16) -> Bitboard16 {
    let mut output = bb;
    for Position { row: r, col: c } in bb.iter_positions() {
        if r > 0 {
            output.set(Position::new(r - 1, c), true);
        }
        if r < 15 {
            output.set(Position::new(r + 1, c), true);
        }
        if c > 0 {
            output.set(Position::new(r, c - 1), true);
        }
        if c < 15 {
            output.set(Position::new(r, c + 1), true);
        }
    }
    output
}

#[test]
fn flood_fill_laws() {
    let bbs = samples();
    for seed in &bbs {
        for mask in &bbs {
            let ff = seed.flood_fill(*mask);
            assert_eq!(ff, ff & mask);
            assert_eq!(ff & (seed & mask), seed & mask);
            assert_eq!((seed & mask).flood_fill(*mask), ff);
            assert_eq!(ff.flood_fill(*mask), ff);
            assert_eq!(transpose(*seed).flood_fill(transpose(*mask)), transpose(ff));
        }
        assert!(Bitboard16::new().flood_fill(*seed).is_empty());
    }
    for a in &bbs[..8] {
        for b in &bbs[..8] {
            for mask in &bbs {
                assert_eq!((a | b).flood_fill(*mask), a.flood_fill(*mask) | b.flood_fill(*mask));
            }
        }
    }
}

#[test]
fn dilate_laws() {
    let bbs = samples();
    for a in &bbs {
        assert_eq!(a.dilate(), dilate_reference(*a));
        assert_eq!(a.dilate() & a, *a);
        assert_eq!(transpose(a.dilate()), transpose(*a).dilate());
        for b in &bbs {
            assert_eq!((a | b).dilate(), a.dilate() | b.dilate());
        }
    }
}

#[test]
fn single_position_dilates_to_five() {
    for row in 0..16 {
        for col in 0..16 {
            let bb = Bitboard16::single(Position::new(row, col));
            let expected_count = 1
                + if (row == 0) | (row == 15) { 1 } else { 2 }
                + if (col == 0) | (col == 15) { 1 } else { 2 };
            assert_eq!(bb.dilate().popcnt(), expected_count);
        }
    }
}

#[test]
fn shift_transpose_symmetry() {
    for bb in samples() {
        for n in 0..16 {
            assert_eq!(transpose(bb.shift_left(n)), transpose(bb).shift_up(n));
            assert_eq!(transpose(bb.shift_right(n)), transpose(bb).shift_down(n));
        }
    }
}

#[test]
fn group_laws() {
    for bb in samples() {
        let groups = bb.iter_groups();
        assert_eq!(groups.iter().fold(Bitboard16::new(), |a, b| a | b), bb);
        for (i, a) in groups.iter().enumerate() {
            assert!(!a.is_empty());
            assert_eq!(a.dilate() & bb, *a);
            for (j, b) in groups.iter().enumerate() {
                if i != j {
                    assert!((a & b).is_empty());
                }
            }
        }
    }
}

#[test]
fn positions_laws() {
    for bb in samples() {
        let positions = bb.iter_positions();
        assert_eq!(positions.len(), bb.popcnt());
        let mut copy = Bitboard16::new();
        for pos in &positions {
            assert!(bb.get(*pos));
            copy.set(*pos, true);
        }
        assert_eq!(copy, bb);
        assert_eq!(Bitboard16::from_positions(&positions), bb);
        let mut cleared = bb;
        for pos in &positions {
            cleared.set(*pos, false);
        }
        assert!(cleared.is_empty());
        let rows = bb.iter_rows();
        assert_eq!(rows.len(), 16);
        let mut count = 0;
        for (r, row) in rows.into_iter().enumerate() {
            let mut row = row;
            for c in 0..16 {
                let bit = row.next().unwrap();
                assert_eq!(bit, bb.get(Position::new(r, c)));
                if bit {
                    count += 1;
                }
            }
            assert_eq!(row.next(), None);
        }
        assert_eq!(count, bb.popcnt());
    }
}

#[test]
fn arbitrary_set_bit_laws() {
    for bb in samples() {
        let bit = bb.arbitrary_set_bit();
        assert_eq!(bit & bb, bit);
        assert_eq!(bit.arbitrary_set_bit(), bit);
        if !bb.is_empty() {
            assert_eq!(bit.popcnt(), 1);
        }
        let mut count = 0;
        let mut current = bb;
        while !current.is_empty() {
            let bit = current.arbitrary_set_bit();
            assert!(!bit.is_empty());
            current = current & !bit;
            count += 1;
        }
        assert_eq!(count, bb.popcnt());
    }
}

#[test]
fn arbitrary_set_bit_picks_first_cell_of_highest_block() {
    let mut bb = Bitboard16::new();
    bb.set(Position::new(1, 3), true);
    bb.set(Position::new(9, 7), true);
    bb.set(Position::new(10, 2), true);
    bb.set(Position::new(9, 12), true);
    assert_eq!(bb.arbitrary_set_bit(), Bitboard16::single(Position::new(9, 7)));
}

#[test]
fn ascii_laws() {
    for bb in samples() {
        for pad_to in 0..=16 {
            let s = bb.format_ascii(pad_to);
            assert_eq!(Bitboard16::from_ascii(&s), bb);
            assert!(s.lines().count() >= pad_to);
            assert!(s.lines().take(pad_to).all(|l| l.len() >= pad_to));
        }
        let s = bb.format_ascii(0);
        assert!(s.lines().all(|l| l.is_empty() || l.ends_with('x')));
        assert!(s.lines().last().is_none_or(|l| !l.is_empty()));
    }
}

#[test]
fn format_ascii_helper_pads_and_compacts() {
    let rows = vec![
        vec![None, Some('a'), None],
        vec![None, None, None],
        vec![None, None, Some('b')],
    ];
    assert_eq!(bobot::format_ascii_helper(&rows, 0), ".a\n\n..b\n");
    assert_eq!(bobot::format_ascii_helper(&rows, 2), ".a\n..\n..b\n");
    assert_eq!(bobot::format_ascii_helper(&rows, 3), ".a.\n...\n..b\n");
}

fn hasher() -> ZobristHasher {
    ZobristHasher::with_seed(Board::SIZE, 99)
}

/// Boards reached by playing pseudo-random moves from the empty board.
fn boards() -> Vec<Board> {
    let hasher = hasher();
    let mut rng = Splitmix64::with_seed(7);
    let mut result = vec![Board::new()];
    for game in 0..6 {
        let mut board = Board::new();
        let mut color = Color::Black;
        for _ in 0..(40 + 30 * game) {
            let row = (rng.next() % 13) as usize;
            let col = (rng.next() % 13) as usize;
            if let Ok(next) = board.play_stone(Position::new(row, col), color, &hasher) {
                board = next;
                color = !color;
            }
        }
        result.push(board);
    }
    result
}

fn swap_colors(board: &Board, hasher: &ZobristHasher) -> Board {
    let s = board.format_ascii(true);
    let swapped: String = s
        .chars()
        .map(|c| match c {
            'x' => 'o',
            'o' => 'x',
            other => other,
        })
        .collect();
    Board::from_ascii(&swapped, hasher).unwrap()
}

fn transpose_board(board: &Board, hasher: &ZobristHasher) -> Board {
    let mut lines = vec![vec!['.'; 13]; 13];
    for (r, line) in board.format_ascii(false).lines().enumerate() {
        for (c, ch) in line.chars().enumerate() {
            lines[c][r] = ch;
        }
    }
    let text: String = lines
        .into_iter()
        .map(|l| l.into_iter().collect::<String>() + "\n")
        .collect();
    Board::from_ascii(&text, hasher).unwrap()
}

#[test]
fn board_invariants_and_hash_kept() {
    let hasher = hasher();
    for board in boards() {
        assert_eq!(board.check_invariants(&hasher), Ok(()));
        for color in [Color::Black, Color::White] {
            for (pos, next) in board.legal_moves(color, &hasher) {
                assert_eq!(next.check_invariants(&hasher), Ok(()));
                assert_eq!(board.play_stone(pos, color, &hasher), Ok(next));
            }
        }
    }
}

#[test]
fn wrong_hash_is_reported() {
    let board = Board::from_ascii("x", &hasher()).unwrap();
    let other = ZobristHasher::with_seed(Board::SIZE, 100);
    assert_eq!(board.check_invariants(&other), Err(BoardInvariantError::WrongHash));
}

#[test]
fn play_stone_laws() {
    let hasher = hasher();
    for board in boards() {
        let empty = board.empty_positions();
        let stones = ColorMap::from([
            board.empty_positions() | !board.empty_positions(),
            Bitboard16::new(),
        ]);
        drop(stones);
        for color in [Color::Black, Color::White] {
            let swapped = swap_colors(&board, &hasher);
            let transposed = transpose_board(&board, &hasher);
            for row in 0..Board::SIZE {
                for col in 0..Board::SIZE {
                    let pos = Position::new(row, col);
                    let result = board.play_stone(pos, color, &hasher);
                    assert_eq!(
                        swapped.play_stone(pos, !color, &hasher),
                        result.clone().map(|b| swap_colors(&b, &hasher))
                    );
                    assert_eq!(
                        transposed.play_stone(Position::new(col, row), color, &hasher),
                        result.clone().map(|b| transpose_board(&b, &hasher))
                    );
                    let move_mask = Bitboard16::single(pos);
                    match result {
                        Ok(after) => {
                            assert!(empty.get(pos));
                            let mine_before = board.format_ascii(false);
                            drop(mine_before);
                            let own_before = stones_of(&board, color);
                            let opp_before = stones_of(&board, !color);
                            let own_after = stones_of(&after, color);
                            let opp_after = stones_of(&after, !color);
                            assert_eq!(own_after, own_before | move_mask);
                            assert!((opp_after & !opp_before).is_empty());
                            let captured = opp_before & !opp_after;
                            for group in captured.iter_groups() {
                                assert_eq!(group.dilate() & empty, move_mask);
                            }
                        }
                        Err(MoveError::NonEmptyPosition) => assert!(!empty.get(pos)),
                        Err(MoveError::Suicide) => {
                            assert!(empty.get(pos));
                            assert_eq!(move_mask.dilate() & empty, move_mask);
                        }
                        Err(MoveError::Ko) => panic!("play_stone never returns ko"),
                    }
                }
            }
        }
    }
}

fn stones_of(board: &Board, color: Color) -> Bitboard16 {
    let mark = if color == Color::Black { 'x' } else { 'o' };
    let text: String = board
        .format_ascii(true)
        .chars()
        .map(|c| if c == mark { 'x' } else if c == '\n' { '\n' } else { '.' })
        .collect();
    Bitboard16::from_ascii(&text)
}

#[test]
fn out_of_bounds_is_non_empty_position() {
    let hasher = hasher();
    for board in boards() {
        for (row, col) in [(13, 0), (0, 13), (20, 20), (255, 3)] {
            assert_eq!(
                board.play_stone(Position::new(row, col), Color::Black, &hasher),
                Err(MoveError::NonEmptyPosition)
            );
        }
    }
}

#[test]
fn legal_move_laws() {
    let hasher = hasher();
    for board in boards() {
        for color in [Color::Black, Color::White] {
            let legal: Vec<Position> = board
                .legal_moves(color, &hasher)
                .into_iter()
                .map(|(pos, _)| pos)
                .collect();
            for row in 0..Board::SIZE {
                for col in 0..Board::SIZE {
                    let pos = Position::new(row, col);
                    assert_eq!(board.play_stone(pos, color, &hasher).is_ok(), legal.contains(&pos));
                }
            }
            let random = board.play_random_legal_move(color, &hasher, &mut rand::rng());
            assert_eq!(random.is_some(), !legal.is_empty());
            if let Some(next) = random {
                assert!(board
                    .legal_moves(color, &hasher)
                    .into_iter()
                    .any(|(_, b)| b == next));
            }
        }
    }
}

#[test]
fn score_laws() {
    let hasher = hasher();
    for board in boards() {
        let [black, white]: [usize; 2] = board.score().into();
        assert!(black >= stones_of(&board, Color::Black).popcnt());
        assert!(white >= stones_of(&board, Color::White).popcnt());
        assert!(black + white <= Board::SIZE * Board::SIZE);
        assert_eq!(swap_colors(&board, &hasher).score(), [white, black].into());
        assert_eq!(transpose_board(&board, &hasher).score(), board.score());
    }
}

#[test]
fn single_color_board() {
    let hasher = hasher();
    let mut rng = Splitmix64::with_seed(5);
    for density in [1, 10, 30, 60] {
        let stones = random_bitboard(&mut rng, density, 13);
        if stones.is_empty() || stones == Bitboard16::board_mask(Board::SIZE) {
            continue;
        }
        for color in [Color::Black, Color::White] {
            let board = Board::from_stones(
                ColorMap::from_perspective(color, stones, Bitboard16::new()),
                &hasher,
            );
            if let Ok(board) = board {
                assert_eq!(
                    board.score().into_perspective(color),
                    (Board::SIZE * Board::SIZE, 0)
                );
            }
        }
    }
}

#[test]
fn board_ascii_round_trip() {
    let hasher = hasher();
    for board in boards() {
        for compact in [true, false] {
            let s = board.format_ascii(compact);
            assert_eq!(Board::from_ascii(&s, &hasher).unwrap(), board);
        }
        let black = stones_of(&board, Color::Black);
        let from_black = Board::from_ascii(&black.format_ascii(0), &hasher).unwrap();
        assert_eq!(stones_of(&from_black, Color::Black), black);
    }
}

#[test]
fn from_stones_errors() {
    let hasher = hasher();
    let a = Bitboard16::single(Position::new(0, 0));
    assert_eq!(
        Board::from_stones(ColorMap::from([a, a]), &hasher),
        Err(BoardInvariantError::Overlap)
    );
    for (row, col) in [(13, 0), (0, 14), (15, 15)] {
        for color in [Color::Black, Color::White] {
            assert_eq!(
                Board::from_stones(
                    ColorMap::from_perspective(
                        color,
                        Bitboard16::single(Position::new(row, col)),
                        Bitboard16::new()
                    ),
                    &hasher
                ),
                Err(BoardInvariantError::StoneOutsideBoard)
            );
        }
    }
    assert_eq!(
        Board::from_ascii("xo\no", &hasher),
        Err(BoardInvariantError::ZeroLiberties)
    );
}

#[test]
fn try_candidate_plays_or_removes() {
    let hasher = hasher();
    let board = Board::from_ascii(".ooooo\noxxxxo\noxx.xo\noxxxxo\noooooo", &hasher).unwrap();
    let mut candidates = board.empty_positions();
    let n = candidates.popcnt();
    let cells = candidates.iter_positions();
    assert_eq!(cells[15], Position::new(2, 3));

    // Suicide at (2, 3): refused, and the cell leaves the candidates.
    assert_eq!(board.try_candidate(Color::Black, &hasher, &mut candidates, 15), None);
    assert_eq!(candidates.popcnt(), n - 1);
    assert!(!candidates.get(Position::new(2, 3)));

    // Suicide at (0, 0) too.
    assert_eq!(board.try_candidate(Color::Black, &hasher, &mut candidates, 0), None);
    assert!(!candidates.get(Position::new(0, 0)));

    // (0, 6) is now the first candidate; playing it leaves the candidates alone.
    let before = candidates;
    let played = board.try_candidate(Color::Black, &hasher, &mut candidates, 0);
    assert_eq!(
        played,
        Some(board.play_stone(Position::new(0, 6), Color::Black, &hasher).unwrap())
    );
    assert_eq!(candidates, before);
}

#[test]
fn every_legal_move_is_reachable_by_some_draw() {
    let hasher = hasher();
    let board = Board::from_ascii("oxo\n.xo\nooo", &hasher).unwrap();
    for color in [Color::Black, Color::White] {
        let legal = board.legal_moves(color, &hasher);
        let all = board.empty_positions();
        let mut reached = Vec::new();
        for i in 0..all.popcnt() {
            let mut candidates = all;
            if let Some(b) = board.try_candidate(color, &hasher, &mut candidates, i) {
                reached.push((all.iter_positions()[i], b));
            }
        }
        assert_eq!(reached, legal);
    }
}

#[test]
fn long_shifts_leave_nothing() {
    let full = Bitboard16::board_mask(16);
    assert!(full.shift_left(16).is_empty());
    assert!(full.shift_right(16).is_empty());
    assert!(full.shift_left(1000).is_empty());
    assert!(full.shift_right(usize::MAX).is_empty());
    assert_eq!(full.shift_left(15).popcnt(), 16);
}

#[test]
fn row_iterator_ends_after_sixteen() {
    let bb = Bitboard16::single(Position::new(0, 15));
    let mut row = bb.iter_rows()[0];
    for c in 0..16 {
        assert_eq!(row.next(), Some(c == 15));
    }
    assert_eq!(row.next(), None);
    assert_eq!(row.next(), None);
}

#[test]
fn boards_report_validity() {
    let hasher = hasher();
    for board in boards() {
        board.validity();
        assert_eq!(board.check_invariants(&hasher), Ok(()));
    }
}

#[test]
fn cloned_hasher_hashes_the_same() {
    let hasher = hasher();
    let copy = hasher.clone();
    assert_eq!(copy.board_size(), hasher.board_size());
    for board in boards() {
        for (pos, after) in board.legal_moves(Color::White, &hasher) {
            assert_eq!(board.play_stone(pos, Color::White, &copy), Ok(after));
        }
    }
}
