use bobot::{Bitboard16, Position};

fn transpose(bb: Bitboard16) -> Bitboard16 {
    let mut output = Bitboard16::new();
    for pos in bb.iter_positions() {
        output.set(Position::new(pos.col, pos.row), true);
    }
    output
}

#[test]
fn new_is_empty() {
    assert!(Bitboard16::new().is_empty())
}

#[test]
fn new_has_no_bits_set() {
    let bb = Bitboard16::new();

    for row in 0..16 {
        for col in 0..16 {
            assert!(!bb.get(Position::new(row, col)));
        }
    }
}

#[test]
fn set_five() {
    let mut bb = Bitboard16::new();

    bb.set(Position::new(0, 0), true);
    bb.set(Position::new(3, 7), true);
    bb.set(Position::new(1, 15), true);
    bb.set(Position::new(15, 14), true);
    bb.set(Position::new(8, 4), true);

    assert_eq!(bb.popcnt(), 5);
}

#[test]
fn full_board_mask_negated_is_empty() {
    assert!((!Bitboard16::board_mask(16)).is_empty())
}

#[test]
fn board_mask_bits() {
    for board_size in 0usize..=16usize {
        let bb = Bitboard16::board_mask(board_size);

        for row in 0usize..16usize {
            for col in 0usize..16usize {
                if (row < board_size) & (col < board_size) {
                    assert!(bb.get(Position::new(row, col)));
                } else {
                    assert!(!bb.get(Position::new(row, col)));
                }
            }
        }
    }
}

#[test]
fn from_ascii() {
    let bb = Bitboard16::from_ascii(
        ".........\n\
         x........\n\
         .....x...\n\
         ....x....\n",
    );

    assert!(bb.get(Position::new(1, 0)));
    assert!(bb.get(Position::new(2, 5)));
    assert!(bb.get(Position::new(3, 4)));
}

#[test]
fn padding_empty() {
    let bb = Bitboard16::new();
    assert_eq!(bb.format_ascii(4), "....\n....\n....\n....\n")
}

#[test]
fn padding_over() {
    let bb = Bitboard16::single(Position::new(10, 10));
    assert_eq!(
        bb.format_ascii(4),
        "....\n....\n....\n....\n\n\n\n\n\n\n..........x\n"
    )
}

#[test]
fn bitboard_empty() {
    assert_eq!(Bitboard16::new().iter_groups().len(), 0);
}

#[test]
fn two_diagonal() {
    let bb = Bitboard16::from_ascii("x\n.x");
    for group in bb.iter_groups() {
        assert_eq!(group.popcnt(), 1);
    }
}

#[test]
fn checkerboard() {
    let mut bb = Bitboard16::new();
    for r in 0..16 {
        for i in 0..8 {
            let c = 2 * i + r % 2;

            bb.set(Position::new(r, c), true);
        }
    }

    for group in bb.iter_groups() {
        assert_eq!(group.popcnt(), 1);
    }
}

#[test]
fn left() {
    assert!(Bitboard16::single(Position::new(5, 0)).shift_left(1).is_empty());
}

#[test]
fn right() {
    assert!(Bitboard16::single(Position::new(5, 15)).shift_right(1).is_empty());
}

#[test]
fn up() {
    assert!(Bitboard16::single(Position::new(0, 5)).shift_up(1).is_empty());
}

#[test]
fn down() {
    assert!(Bitboard16::single(Position::new(15, 5)).shift_down(1).is_empty());
}

#[test]
fn up_accross_half() {
    let bb = Bitboard16::single(Position::new(8, 5)).shift_up(1);

    assert_eq!(bb.popcnt(), 1);
    assert!(bb.get(Position::new(7, 5)))
}

#[test]
fn down_accross_half() {
    let bb = Bitboard16::single(Position::new(7, 5)).shift_down(1);

    assert_eq!(bb.popcnt(), 1);
    assert!(bb.get(Position::new(8, 5)))
}

#[test]
fn dilate_empty() {
    assert!(Bitboard16::new().dilate().is_empty());
}

#[test]
fn bitboard_full() {
    let full = !Bitboard16::new();
    assert_eq!(full.dilate(), full);
}

#[test]
fn near_half_vector_boundary() {
    let mut bb = Bitboard16::new();
    bb.set(Position::new(7, 2), true);
    bb.set(Position::new(8, 6), true);

    let bb = bb.dilate();

    assert!(bb.get(Position::new(6, 2)));
    assert!(bb.get(Position::new(7, 1)));
    assert!(bb.get(Position::new(7, 2)));
    assert!(bb.get(Position::new(7, 3)));
    assert!(bb.get(Position::new(8, 2)));

    assert!(bb.get(Position::new(7, 6)));
    assert!(bb.get(Position::new(8, 5)));
    assert!(bb.get(Position::new(8, 6)));
    assert!(bb.get(Position::new(8, 7)));
    assert!(bb.get(Position::new(9, 6)));

    assert_eq!(bb.popcnt(), 10);
}

#[test]
fn corner_zero() {
    let bb = Bitboard16::single(Position::new(0, 0));

    assert_eq!(bb.dilate().popcnt(), 3);
}

#[test]
fn corner_max() {
    let bb = Bitboard16::single(Position::new(15, 15));

    assert_eq!(bb.dilate().popcnt(), 3);
}

#[test]
fn snake1() {
    let mask = Bitboard16::from_ascii(
        "xxxxxxxxxxxxxxxx\n\
         ...............x\n\
         xxxxxxxxxxxxxxxx\n\
         x...............\n\
         xxxxxxxxxxxxxxxx\n\
         ...............x\n\
         xxxxxxxxxxxxxxxx\n\
         x...............\n\
         xxxxxxxxxxxxxxxx\n\
         ...............x\n\
         xxxxxxxxxxxxxxxx\n\
         x...............\n\
         xxxxxxxxxxxxxxxx\n\
         ...............x\n\
         xxxxxxxxxxxxxxxx\n\
         x...............",
    );
    let seed = Bitboard16::single(Position::new(0, 0));

    assert_eq!(seed.flood_fill(mask), mask);
    assert_eq!(seed.flood_fill(transpose(mask)), transpose(mask));
}

#[test]
fn snake2() {
    let mask = Bitboard16::from_ascii(
        "xxxxxxxxxxxxxxxx\n\
         ...............x\n\
         xxxxxxxxxxxxxx.x\n\
         x............x.x\n\
         x.xxxxxxxxxx.x.x\n\
         x.x........x.x.x\n\
         x.x.xxxxxx.x.x.x\n\
         x.x.x....x.x.x.x\n\
         x.x.x.x..x.x.x.x\n\
         x.x.x.xxxx.x.x.x\n\
         x.x.x......x.x.x\n\
         x.x.xxxxxxxx.x.x\n\
         x.x..........x.x\n\
         x.xxxxxxxxxxxx.x\n\
         x..............x\n\
         xxxxxxxxxxxxxxxx",
    );
    let seed = Bitboard16::single(Position::new(0, 0));

    assert_eq!(seed.flood_fill(mask), mask);
    assert_eq!(seed.flood_fill(transpose(mask)), transpose(mask));
}

#[test]
fn flood_fill_full() {
    let mask = Bitboard16::board_mask(16);
    let seed = Bitboard16::single(Position::new(0, 0));

    assert_eq!(seed.flood_fill(mask), mask);
}

#[test]
fn two_islands() {
    let mask = Bitboard16::from_ascii(
        "................\n\
         ................\n\
         ....xxxxxxxx....\n\
         .....xxxxxxxxx..\n\
         xxxxxxxxxxxx....\n\
         .xx.....x.......\n\
         ..xx........xx..\n\
         ..xxxx.....xx...\n\
         ..xxxx....xxxx..\n\
         ...xx.....x..x..\n\
         ...xx....xxxxx..",
    );

    let seed1 = Bitboard16::single(Position::new(5, 2));
    let seed2 = Bitboard16::single(Position::new(9, 13));

    let ff1 = seed1.flood_fill(mask);
    let ff2 = seed2.flood_fill(mask);

    assert!((ff1 & ff2).is_empty());
    assert_eq!(ff1 | ff2, mask);
}

#[test]
fn staircase() {
    let mask = Bitboard16::from_ascii(
        "x\n\
         .x\n\
         ..x\n\
         ...x\n\
         ....x\n\
         .....x\n\
         ......x\n\
         .......x\n\
         ........x\n\
         .........x\n\
         ..........x\n\
         ...........x\n\
         ............x\n\
         .............x\n\
         ..............x\n\
         ...............x",
    );
    let seed = Bitboard16::single(Position::new(8, 8));

    assert_eq!(seed.flood_fill(mask), seed);
}

#[test]
fn not_skipping_a_gap() {
    let mask = Bitboard16::from_ascii("xxx.xx");
    let seed = Bitboard16::single(Position::new(0, 0));

    assert_eq!(seed.flood_fill(mask).popcnt(), 3);
}

#[test]
fn arbitrary_set_bit_empty() {
    assert!(Bitboard16::new().arbitrary_set_bit().is_empty());
}
