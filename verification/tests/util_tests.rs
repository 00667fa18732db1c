use bobot::Splitmix64;

/// Tests that the results match the known values from Rosetta Code
/// https://rosettacode.org/wiki/Pseudo-random_numbers/Splitmix64
#[test]
fn rosetta_code_reference_values() {
    let mut splitmix = Splitmix64::with_seed(1234567);

    assert_eq!(splitmix.next(), 6457827717110365317);
    assert_eq!(splitmix.next(), 3203168211198807973);
    assert_eq!(splitmix.next(), 9817491932198370423);
    assert_eq!(splitmix.next(), 4593380528125082431);
    assert_eq!(splitmix.next(), 16408922859458223821);
}

/// Tests five-binned histogram from Rosetta Code.
/// https://rosettacode.org/wiki/Pseudo-random_numbers/Splitmix64
#[test]
fn rosetta_code_five() {
    let mut splitmix = Splitmix64::with_seed(987654321);
    let mut counts = [0usize; 5];

    for _i in 0..100_000 {
        let index = splitmix.next() / (((1u128 << 64) / 5) as u64);
        counts[index as usize] += 1;
    }

    assert_eq!(counts, [20027, 19892, 20073, 19978, 20030]);
}

#[test]
fn same_seed_same_sequence() {
    let mut a = Splitmix64::with_seed(42);
    let mut b = Splitmix64::with_seed(42);
    for _ in 0..10 {
        assert_eq!(a.next(), b.next());
    }
}
