use std::collections::HashSet;

use bobot::zobrist::MAX_SIZE;
use bobot::{Color, Position, Splitmix64, ZobristHash, ZobristHasher};

#[test]
fn all_unique() {
    let mut set: HashSet<u64> = HashSet::new();

    for r in 0..MAX_SIZE {
        for c in 0..MAX_SIZE {
            for color in [Color::Black, Color::White] {
                set.insert(ZobristHash::stone(Position { row: r, col: c }, color).into());
            }
        }
    }

    assert_eq!(set.len(), MAX_SIZE * MAX_SIZE * 2);
}

#[test]
fn stone_is_splitmix_output() {
    // entry index of white on (0, 1) is 1 + 2 * 1 = 3
    let mut rng = Splitmix64::with_seed(bobot::zobrist::HASHES_SEED);
    let mut expected = 0;
    for _ in 0..4 {
        expected = rng.next();
    }
    let h: u64 = ZobristHash::stone(Position::new(0, 1), Color::White).into();
    assert_eq!(h, expected);
}

#[test]
fn xor_is_self_inverse() {
    let a = ZobristHash::stone(Position::new(3, 4), Color::Black);
    let b = ZobristHash::stone(Position::new(5, 6), Color::White);
    assert_eq!((a ^ b) ^ b, a);
    let mut c = a;
    c ^= b;
    c ^= b;
    assert_eq!(c, a);
}

#[test]
fn hasher_table_from_seed() {
    let hasher = ZobristHasher::with_seed(13, 7);
    let mut rng = Splitmix64::with_seed(7);
    // white on (1, 2): 1 + 2 * (2 + 13 * 1) = 31
    let mut expected = 0;
    for _ in 0..32 {
        expected = rng.next();
    }
    let h: u64 = hasher.stone(Position::new(1, 2), Color::White).into();
    assert_eq!(h, expected);
    assert_eq!(hasher.board_size(), 13);
}

#[test]
fn hasher_from_thread_rng() {
    let hasher = ZobristHasher::new(13, &mut rand::rng());
    assert_eq!(hasher.board_size(), 13);
}
