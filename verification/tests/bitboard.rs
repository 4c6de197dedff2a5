use chess_engine::bitboard::{Bitboard, ConstBitboardOps};

#[test]
fn u64_bitboard() {
    assert_eq!(<u64 as Bitboard>::ZERO, 0);
    assert_eq!(<u64 as Bitboard>::ONE, 1);
    assert_eq!(<u64 as Bitboard>::BITS, 64);

    assert_eq!(<u64 as Bitboard>::bit(63), 1u64 << 63);

    assert!(<u64 as Bitboard>::bit(63).has(63));
    assert_eq!(<u64 as Bitboard>::bit(63).first_set(), Some(63));
}

#[test]
fn u128_bitboard() {
    assert_eq!(<u128 as Bitboard>::ZERO, 0);
    assert_eq!(<u128 as Bitboard>::ONE, 1);
    assert_eq!(<u128 as Bitboard>::BITS, 128);

    assert_eq!(<u128 as Bitboard>::bit(127), 1u128 << 127);

    assert!(<u128 as Bitboard>::bit(127).has(127));
    assert_eq!(<u128 as Bitboard>::bit(127).first_set(), Some(127));
}

#[test]
fn const_operations_work() {
    let a: u128 = <u128 as ConstBitboardOps>::const_bit(4);
    let b: u128 = <u128 as ConstBitboardOps>::const_bit(7);
    let c: u128 = <u128 as ConstBitboardOps>::const_or(a, b);

    assert_eq!(c, (1u128 << 4) | (1u128 << 7));
}

#[test]
fn bitboard_last_set_and_any() {
    let x: u128 = (1u128 << 3) | (1u128 << 90);
    assert_eq!(x.first_set(), Some(3));
    assert_eq!(x.last_set(), Some(90));
    assert!(x.any());
    assert!(!<u128 as Bitboard>::ZERO.any());
    assert_eq!(<u128 as Bitboard>::ZERO.first_set(), None);
    assert_eq!(<u64 as Bitboard>::ZERO.last_set(), None);
    assert_eq!(<u128 as Bitboard>::from_u64(5), 5u128);
}
