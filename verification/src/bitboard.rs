use vstd::prelude::*;

verus! {

/// Whether bit `i` of a 128-bit board is set (bits at 128 and above are never set).
pub open spec fn has_bit(b: u128, i: nat) -> bool {
    i < 128 && (b >> (i as u128)) & 1u128 == 1u128
}

/// Whether bit `i` of a 64-bit board is set.
pub open spec fn has_bit64(b: u64, i: nat) -> bool {
    i < 64 && (b >> (i as u64)) & 1u64 == 1u64
}

/// The 128-bit board whose only set bit is `i` (empty when `i >= 128`).
pub open spec fn single(i: nat) -> u128 {
    if i < 128 {
        1u128 << (i as u128)
    } else {
        0u128
    }
}

proof fn lemma_bits_u128(x: u128, y: u128, i: u128)
    by (bit_vector)
    requires
        i < 128,
    ensures
        ((x | y) >> i) & 1 == 1 <==> ((x >> i) & 1 == 1 || (y >> i) & 1 == 1),
        ((x & y) >> i) & 1 == 1 <==> ((x >> i) & 1 == 1 && (y >> i) & 1 == 1),
        ((x ^ y) >> i) & 1 == 1 <==> (((x >> i) & 1 == 1) != ((y >> i) & 1 == 1)),
        ((!x) >> i) & 1 == 1 <==> !((x >> i) & 1 == 1),
        (0u128 >> i) & 1 != 1,
{
}

proof fn lemma_single_u128(j: u128, i: u128)
    by (bit_vector)
    requires
        i < 128,
        j < 128,
    ensures
        ((1u128 << j) >> i) & 1 == 1 <==> i == j,
        (i as u128 as int) == i as int,
{
}

pub broadcast proof fn lemma_has_or(x: u128, y: u128, i: nat)
    ensures
        #[trigger] has_bit(x | y, i) == (has_bit(x, i) || has_bit(y, i)),
{
    if i < 128 {
        lemma_bits_u128(x, y, i as u128);
    }
}

pub broadcast proof fn lemma_has_and(x: u128, y: u128, i: nat)
    ensures
        #[trigger] has_bit(x & y, i) == (has_bit(x, i) && has_bit(y, i)),
{
    if i < 128 {
        lemma_bits_u128(x, y, i as u128);
    }
}

pub broadcast proof fn lemma_has_xor(x: u128, y: u128, i: nat)
    ensures
        #[trigger] has_bit(x ^ y, i) == (has_bit(x, i) != has_bit(y, i)),
{
    if i < 128 {
        lemma_bits_u128(x, y, i as u128);
    }
}

pub broadcast proof fn lemma_has_not(x: u128, i: nat)
    ensures
        #[trigger] has_bit(!x, i) == (i < 128 && !has_bit(x, i)),
{
    if i < 128 {
        lemma_bits_u128(x, x, i as u128);
    }
}

pub broadcast proof fn lemma_has_zero(i: nat)
    ensures
        !#[trigger] has_bit(0u128, i),
{
    if i < 128 {
        lemma_bits_u128(0, 0, i as u128);
    }
}

pub broadcast proof fn lemma_has_single(j: nat, i: nat)
    ensures
        #[trigger] has_bit(single(j), i) == (j < 128 && i == j),
{
    if i < 128 {
        if j < 128 {
            lemma_single_u128(j as u128, i as u128);
        } else {
            lemma_bits_u128(0, 0, i as u128);
        }
    }
}

pub broadcast group group_bits {
    lemma_has_or,
    lemma_has_and,
    lemma_has_xor,
    lemma_has_not,
    lemma_has_zero,
    lemma_has_single,
}

proof fn lemma_low_mask_step(z: u128, n: u128)
    by (bit_vector)
    requires
        n < 127,
        z & !((!0u128) << n) == 0,
        (z >> n) & 1 != 1,
    ensures
        z & !((!0u128) << (n + 1)) == 0,
{
}

proof fn lemma_low_mask_last(z: u128)
    by (bit_vector)
    requires
        z & !((!0u128) << 127u128) == 0,
        (z >> 127u128) & 1 != 1,
    ensures
        z == 0,
{
}

proof fn lemma_low_mask_base(z: u128)
    by (bit_vector)
    ensures
        z & !((!0u128) << 0u128) == 0,
        forall|x: u128, y: u128| x ^ y == 0 ==> x == y,
{
}

proof fn lemma_low_bits_zero(z: u128, n: u128)
    requires
        n <= 127,
        forall|i: nat| i < 128 ==> !has_bit(z, i),
    ensures
        z & !((!0u128) << n) == 0,
    decreases n,
{
    if n == 0 {
        lemma_low_mask_base(z);
    } else {
        lemma_low_bits_zero(z, (n - 1) as u128);
        assert(!has_bit(z, (n - 1) as nat));
        assert(((n - 1) as u128) as nat == (n - 1) as nat);
        lemma_low_mask_step(z, (n - 1) as u128);
        assert(((n - 1) as u128) + 1 == n);
    }
}

/// Two boards with the same bits are the same board.
pub proof fn lemma_bits_ext(x: u128, y: u128)
    requires
        forall|i: nat| i < 128 ==> has_bit(x, i) == has_bit(y, i),
    ensures
        x == y,
{
    broadcast use group_bits;

    let z = x ^ y;
    assert forall|i: nat| i < 128 implies !has_bit(z, i) by {}
    lemma_low_bits_zero(z, 127);
    assert(!has_bit(z, 127));
    lemma_low_mask_last(z);
    lemma_low_mask_base(z);
}

/// A board with no set bit is zero.
pub proof fn lemma_zero_iff_empty(x: u128)
    ensures
        x == 0 <==> (forall|i: nat| i < 128 ==> !has_bit(x, i)),
{
    broadcast use group_bits;

    if forall|i: nat| i < 128 ==> !has_bit(x, i) {
        lemma_bits_ext(x, 0);
    }
}

proof fn lemma_bits_u64(x: u64, j: u64, i: u64)
    by (bit_vector)
    requires
        i < 64,
        j < 64,
    ensures
        ((1u64 << j) >> i) & 1 == 1 <==> i == j,
        (x & (1u64 << j)) != 0 <==> (x >> j) & 1 == 1,
        (x as u128 >> i as u128) & 1 == 1 <==> (x >> i) & 1 == 1,
        ((1u64 << j) as u128) == (1u128 << (j as u128)),
{
}

proof fn lemma_zero_u64(i: u64)
    by (bit_vector)
    ensures
        (0u64 >> i) & 1 == 0,
{
}

proof fn lemma_high_u64(x: u64, i: u128)
    by (bit_vector)
    requires
        64 <= i < 128,
    ensures
        (x as u128 >> i) & 1 != 1,
{
}

proof fn lemma_test_u128(x: u128, j: u128)
    by (bit_vector)
    requires
        j < 128,
    ensures
        (x & (1u128 << j)) != 0 <==> (x >> j) & 1 == 1,
{
}

/// Testing a board against a single bit tells whether that bit is set.
pub proof fn lemma_test_single(x: u128, i: nat)
    requires
        i < 128,
    ensures
        ((x & single(i)) != 0) == has_bit(x, i),
        single(i) == 1u128 << (i as u128),
{
    lemma_test_u128(x, i as u128);
}

/// Unsigned integers that can index a square.
pub trait BitboardIndex: Copy + Sized {
    spec fn spec_max() -> nat;

    spec fn spec_value(self) -> nat;

    fn from_usize(index: usize) -> (r: Self)
        requires
            index as nat <= Self::spec_max(),
        ensures
            r.spec_value() == index as nat,
    ;

    fn as_usize(self) -> (r: usize)
        ensures
            r as nat == self.spec_value(),
    ;
}

impl BitboardIndex for u8 {
    open spec fn spec_max() -> nat {
        u8::MAX as nat
    }

    open spec fn spec_value(self) -> nat {
        self as nat
    }

    fn from_usize(index: usize) -> (r: u8) {
        index as u8
    }

    fn as_usize(self) -> (r: usize) {
        self as usize
    }
}

impl BitboardIndex for u16 {
    open spec fn spec_max() -> nat {
        u16::MAX as nat
    }

    open spec fn spec_value(self) -> nat {
        self as nat
    }

    fn from_usize(index: usize) -> (r: u16) {
        index as u16
    }

    fn as_usize(self) -> (r: usize) {
        self as usize
    }
}

impl BitboardIndex for u32 {
    open spec fn spec_max() -> nat {
        u32::MAX as nat
    }

    open spec fn spec_value(self) -> nat {
        self as nat
    }

    fn from_usize(index: usize) -> (r: u32) {
        index as u32
    }

    fn as_usize(self) -> (r: usize) {
        self as usize
    }
}

impl BitboardIndex for usize {
    open spec fn spec_max() -> nat {
        usize::MAX as nat
    }

    open spec fn spec_value(self) -> nat {
        self as nat
    }

    fn from_usize(index: usize) -> (r: usize) {
        index
    }

    fn as_usize(self) -> (r: usize) {
        self
    }
}

/// Marks the integer types that serve as bitboards.
pub trait Sealed {}

impl Sealed for u64 {}

impl Sealed for u128 {}

/// The two bit operations that building attack tables needs.
pub trait ConstBitboardOps: Sealed + Copy + Sized {
    spec fn spec_bit_set(self, index: nat) -> bool;

    spec fn spec_width() -> nat;

    fn const_bit(index: usize) -> (r: Self)
        ensures
            forall|i: nat| #[trigger]
                r.spec_bit_set(i) == (i == index as nat && i < Self::spec_width()),
    ;

    fn const_or(self, rhs: Self) -> (r: Self)
        ensures
            forall|i: nat| #[trigger]
                r.spec_bit_set(i) == (self.spec_bit_set(i) || rhs.spec_bit_set(i)),
    ;
}

impl ConstBitboardOps for u64 {
    open spec fn spec_bit_set(self, index: nat) -> bool {
        has_bit64(self, index)
    }

    open spec fn spec_width() -> nat {
        64
    }

    fn const_bit(index: usize) -> (r: u64) {
        if index >= 64 {
            proof {
                assert forall|i: nat| #[trigger] has_bit64(0u64, i) == false by {
                    if i < 64 {
                        lemma_zero_u64(i as u64);
                    }
                }
            }
            0
        } else {
            let r = 1u64 << (index as u64);
            proof {
                assert forall|i: nat| #[trigger] has_bit64(r, i) == (i == index as nat && i < 64) by {
                    if i < 64 {
                        lemma_bits_u64(0, index as u64, i as u64);
                    }
                }
            }
            r
        }
    }

    fn const_or(self, rhs: u64) -> (r: u64) {
        let r = self | rhs;
        proof {
            assert forall|i: nat| #[trigger] has_bit64(r, i) == (has_bit64(self, i) || has_bit64(rhs, i)) by {
                if i < 64 {
                    let k = i as u64;
                    assert(((self | rhs) >> k) & 1 == 1 <==> ((self >> k) & 1 == 1 || (rhs >> k) & 1
                        == 1)) by (bit_vector);
                }
            }
        }
        r
    }
}

impl ConstBitboardOps for u128 {
    open spec fn spec_bit_set(self, index: nat) -> bool {
        has_bit(self, index)
    }

    open spec fn spec_width() -> nat {
        128
    }

    fn const_bit(index: usize) -> (r: u128) {
        broadcast use group_bits;

        if index >= 128 {
            0
        } else {
            let r = 1u128 << (index as u128);
            assert(r == single(index as nat));
            r
        }
    }

    fn const_or(self, rhs: u128) -> (r: u128) {
        broadcast use group_bits;

        self | rhs
    }
}

/// An integer type used as a set of squares.
pub trait Bitboard: Sealed + ConstBitboardOps + Copy + Sized {
    const ZERO: Self;

    const ONE: Self;

    const BITS: usize;

    fn from_u64(value: u64) -> (r: Self)
        ensures
            forall|i: nat| #[trigger] r.spec_bit_set(i) == has_bit64(value, i),
    ;

    fn bit(index: u8) -> (r: Self)
        ensures
            forall|i: nat| #[trigger]
                r.spec_bit_set(i) == (i == index as nat && i < Self::spec_width()),
    ;

    fn has(self, index: u8) -> (r: bool)
        ensures
            r == self.spec_bit_set(index as nat),
    ;

    fn any(self) -> (r: bool)
        ensures
            r == exists|i: nat| #[trigger] self.spec_bit_set(i),
    ;

    fn first_set(self) -> (r: Option<u8>)
        ensures
            r is None <==> forall|i: nat| !#[trigger] self.spec_bit_set(i),
            r matches Some(k) ==> self.spec_bit_set(k as nat) && forall|i: nat|
                i < k ==> !#[trigger] self.spec_bit_set(i),
    ;

    fn last_set(self) -> (r: Option<u8>)
        ensures
            r is None <==> forall|i: nat| !#[trigger] self.spec_bit_set(i),
            r matches Some(k) ==> self.spec_bit_set(k as nat) && forall|i: nat|
                i > k ==> !#[trigger] self.spec_bit_set(i),
    ;
}

impl Bitboard for u64 {
    const ZERO: u64 = 0;

    const ONE: u64 = 1;

    const BITS: usize = 64;

    fn from_u64(value: u64) -> (r: u64) {
        value
    }

    fn bit(index: u8) -> (r: u64) {
        Self::const_bit(index as usize)
    }

    fn has(self, index: u8) -> (r: bool) {
        if index >= 64 {
            false
        } else {
            proof {
                lemma_bits_u64(self, index as u64, 0);
            }
            (self & (1u64 << (index as u64))) != 0
        }
    }

    fn any(self) -> (r: bool) {
        match self.first_set() {
            Some(k) => true,
            None => false,
        }
    }

    fn first_set(self) -> (r: Option<u8>) {
        let mut k: u8 = 0;
        while k < 64
            invariant
                k <= 64,
                forall|i: nat| i < k ==> !#[trigger] has_bit64(self, i),
            decreases 64 - k,
        {
            if self.has(k) {
                return Some(k);
            }
            k = k + 1;
        }
        None
    }

    fn last_set(self) -> (r: Option<u8>) {
        let mut k: u8 = 64;
        while k > 0
            invariant
                k <= 64,
                forall|i: nat| i >= k ==> !#[trigger] has_bit64(self, i),
            decreases k,
        {
            if self.has(k - 1) {
                return Some(k - 1);
            }
            k = k - 1;
        }
        None
    }
}

impl Bitboard for u128 {
    const ZERO: u128 = 0;

    const ONE: u128 = 1;

    const BITS: usize = 128;

    fn from_u64(value: u64) -> (r: u128) {
        let r = value as u128;
        proof {
            assert forall|i: nat| #[trigger] has_bit(r, i) == has_bit64(value, i) by {
                if i < 64 {
                    lemma_bits_u64(value, 0, i as u64);
                } else if i < 128 {
                    lemma_high_u64(value, i as u128);
                }
            }
        }
        r
    }

    fn bit(index: u8) -> (r: u128) {
        Self::const_bit(index as usize)
    }

    fn has(self, index: u8) -> (r: bool) {
        if index >= 128 {
            false
        } else {
            proof {
                lemma_test_u128(self, index as u128);
            }
            (self & (1u128 << (index as u128))) != 0
        }
    }

    fn any(self) -> (r: bool) {
        match self.first_set() {
            Some(k) => true,
            None => false,
        }
    }

    fn first_set(self) -> (r: Option<u8>) {
        let mut k: u8 = 0;
        while k < 128
            invariant
                k <= 128,
                forall|i: nat| i < k ==> !#[trigger] has_bit(self, i),
            decreases 128 - k,
        {
            if self.has(k) {
                return Some(k);
            }
            k = k + 1;
        }
        None
    }

    fn last_set(self) -> (r: Option<u8>) {
        let mut k: u8 = 128;
        while k > 0
            invariant
                k <= 128,
                forall|i: nat| i >= k ==> !#[trigger] has_bit(self, i),
            decreases k,
        {
            if self.has(k - 1) {
                return Some(k - 1);
            }
            k = k - 1;
        }
        None
    }
}

} // verus!
