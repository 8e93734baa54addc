use vstd::prelude::*;
use vstd::std_specs::bits::{
    axiom_u16_leading_zeros, axiom_u16_trailing_zeros, axiom_u32_leading_zeros,
    axiom_u32_trailing_zeros, axiom_u64_leading_zeros, axiom_u64_trailing_zeros,
    axiom_u8_leading_zeros, axiom_u8_trailing_zeros, u16_leading_zeros, u16_trailing_zeros,
    u32_leading_zeros, u32_trailing_zeros, u64_leading_zeros, u64_trailing_zeros,
    u8_leading_zeros, u8_trailing_zeros,
};

verus! {

/// Number of `true` entries of a bit sequence.
pub open spec fn count_true(s: Seq<bool>) -> nat
    decreases s.len(),
{
    if s.len() == 0 {
        0
    } else {
        count_true(s.drop_last()) + if s.last() {
            1nat
        } else {
            0nat
        }
    }
}

/// The bits of one word, least significant first.
pub open spec fn word_seq<A: PrimStore>(w: A) -> Seq<bool> {
    Seq::new(A::width(), |i: int| w.bit(i))
}

/// An unsigned primitive integer used as a word of bits.
///
/// Every operation is specified bit by bit through `bit`, so that the set
/// algorithms above it never look at the integer value itself.
pub trait PrimStore: Copy + Sized {
    /// Number of bits in a word.
    spec fn width() -> nat;

    /// Whether bit `i` (counted from the least significant end) is set.
    spec fn bit(self, i: int) -> bool;

    proof fn lemma_width()
        ensures
            8 <= Self::width() <= 64,
    ;

    proof fn lemma_bit_range(w: Self, i: int)
        ensures
            w.bit(i) ==> 0 <= i < Self::width(),
    ;

    /// Two words with the same bits are the same word.
    proof fn lemma_ext(a: Self, b: Self)
        requires
            forall|i: int| 0 <= i < Self::width() ==> a.bit(i) == b.bit(i),
        ensures
            a == b,
    ;

    fn bit_width() -> (r: u32)
        ensures
            r == Self::width(),
    ;

    fn zero() -> (r: Self)
        ensures
            forall|i: int| !r.bit(i),
    ;

    fn single(i: u32) -> (r: Self)
        requires
            i < Self::width(),
        ensures
            forall|j: int| r.bit(j) == (j == i),
    ;

    fn or(self, other: Self) -> (r: Self)
        ensures
            forall|i: int| r.bit(i) == (self.bit(i) || other.bit(i)),
    ;

    fn and(self, other: Self) -> (r: Self)
        ensures
            forall|i: int| r.bit(i) == (self.bit(i) && other.bit(i)),
    ;

    fn xor(self, other: Self) -> (r: Self)
        ensures
            forall|i: int| r.bit(i) == (self.bit(i) != other.bit(i)),
    ;

    fn and_not(self, other: Self) -> (r: Self)
        ensures
            forall|i: int| r.bit(i) == (self.bit(i) && !other.bit(i)),
    ;

    fn not(self) -> (r: Self)
        ensures
            forall|i: int| r.bit(i) == (0 <= i < Self::width() && !self.bit(i)),
    ;

    fn is_zero(self) -> (r: bool)
        ensures
            r == (forall|i: int| !self.bit(i)),
    ;

    fn count_ones(self) -> (r: u32)
        ensures
            r == count_true(Seq::new(Self::width(), |i: int| self.bit(i))),
    ;

    /// Index of the lowest set bit, or the width when no bit is set.
    fn trailing_zeros(self) -> (r: u32)
        ensures
            r <= Self::width(),
            r < Self::width() ==> self.bit(r as int),
            forall|j: int| 0 <= j < r ==> !self.bit(j),
    ;

    /// Number of unset bits above the highest set bit (the width when no bit is set).
    fn leading_zeros(self) -> (r: u32)
        ensures
            r <= Self::width(),
            r < Self::width() ==> self.bit(Self::width() - 1 - r),
            forall|j: int| Self::width() - r <= j < Self::width() ==> !self.bit(j),
    ;

    fn equals(self, other: Self) -> (r: bool)
        ensures
            r == (self == other),
    ;
}

/// `u64::count_ones`: the number of ones in the binary representation.
#[verifier::external_body]
fn u64_count_ones(x: u64) -> (r: u32)
    ensures
        r == count_true(Seq::new(64, |i: int| u64_bit(x, i))),
{
    x.count_ones()
}

/// `u32::count_ones`: the number of ones in the binary representation.
#[verifier::external_body]
fn u32_count_ones(x: u32) -> (r: u32)
    ensures
        r == count_true(Seq::new(32, |i: int| u32_bit(x, i))),
{
    x.count_ones()
}

/// `u16::count_ones`: the number of ones in the binary representation.
#[verifier::external_body]
fn u16_count_ones(x: u16) -> (r: u32)
    ensures
        r == count_true(Seq::new(16, |i: int| u16_bit(x, i))),
{
    x.count_ones()
}

/// `u8::count_ones`: the number of ones in the binary representation.
#[verifier::external_body]
fn u8_count_ones(x: u8) -> (r: u32)
    ensures
        r == count_true(Seq::new(8, |i: int| u8_bit(x, i))),
{
    x.count_ones()
}

/// Bit `i` of a `u64`, least significant first.
pub open spec fn u64_bit(x: u64, i: int) -> bool {
    0 <= i < 64 && (x >> (i as u64)) & 1u64 == 1u64
}

proof fn lemma_u64_ops(a: u64, b: u64, j: u64, k: u64)
    by (bit_vector)
    requires
        j < 64,
        k < 64,
    ensures
        ((a | b) >> j) & 1 == 1 <==> (((a >> j) & 1 == 1) || ((b >> j) & 1 == 1)),
        ((a & b) >> j) & 1 == 1 <==> (((a >> j) & 1 == 1) && ((b >> j) & 1 == 1)),
        ((a ^ b) >> j) & 1 == 1 <==> (((a >> j) & 1 == 1) != ((b >> j) & 1 == 1)),
        ((a & !b) >> j) & 1 == 1 <==> (((a >> j) & 1 == 1) && !((b >> j) & 1 == 1)),
        ((!a) >> j) & 1 == 1 <==> !((a >> j) & 1 == 1),
        ((0u64 >> j) & 1) != 1,
        ((1u64 << k) >> j) & 1 == 1 <==> j == k,
        a ^ b == 0 ==> a == b,
        (a >> j) & 1 != 1 ==> (a >> j) & 1 == 0,
{
}

impl PrimStore for u64 {
    open spec fn width() -> nat {
        64
    }

    open spec fn bit(self, i: int) -> bool {
        u64_bit(self, i)
    }

    proof fn lemma_width() {
    }

    proof fn lemma_bit_range(w: Self, i: int) {
    }

    proof fn lemma_ext(a: Self, b: Self) {
        let x = a ^ b;
        broadcast use axiom_u64_trailing_zeros;

        if x != 0 {
            let t = u64_trailing_zeros(x) as u64;
            lemma_u64_ops(a, b, t, 0);
            assert(a.bit(t as int) == b.bit(t as int));
        } else {
            lemma_u64_ops(a, b, 0, 0);
        }
    }

    fn bit_width() -> (r: u32) {
        64
    }

    fn zero() -> (r: Self) {
        proof {
            assert forall|i: int| !0u64.bit(i) by {
                if 0 <= i < 64 {
                    lemma_u64_ops(0, 0, i as u64, 0);
                }
            }
        }
        0
    }

    fn single(i: u32) -> (r: Self) {
        let r = 1u64 << i;
        proof {
            assert forall|j: int| r.bit(j) == (j == i) by {
                if 0 <= j < 64 {
                    lemma_u64_ops(0, 0, j as u64, i as u64);
                }
            }
        }
        r
    }

    fn or(self, other: Self) -> (r: Self) {
        let r = self | other;
        proof {
            assert forall|i: int| r.bit(i) == (self.bit(i) || other.bit(i)) by {
                if 0 <= i < 64 {
                    lemma_u64_ops(self, other, i as u64, 0);
                }
            }
        }
        r
    }

    fn and(self, other: Self) -> (r: Self) {
        let r = self & other;
        proof {
            assert forall|i: int| r.bit(i) == (self.bit(i) && other.bit(i)) by {
                if 0 <= i < 64 {
                    lemma_u64_ops(self, other, i as u64, 0);
                }
            }
        }
        r
    }

    fn xor(self, other: Self) -> (r: Self) {
        let r = self ^ other;
        proof {
            assert forall|i: int| r.bit(i) == (self.bit(i) != other.bit(i)) by {
                if 0 <= i < 64 {
                    lemma_u64_ops(self, other, i as u64, 0);
                }
            }
        }
        r
    }

    fn and_not(self, other: Self) -> (r: Self) {
        let r = self & !other;
        proof {
            assert forall|i: int| r.bit(i) == (self.bit(i) && !other.bit(i)) by {
                if 0 <= i < 64 {
                    lemma_u64_ops(self, other, i as u64, 0);
                }
            }
        }
        r
    }

    fn not(self) -> (r: Self) {
        let r = !self;
        proof {
            assert forall|i: int| r.bit(i) == (0 <= i < 64 && !self.bit(i)) by {
                if 0 <= i < 64 {
                    lemma_u64_ops(self, self, i as u64, 0);
                }
            }
        }
        r
    }

    fn is_zero(self) -> (r: bool) {
        proof {
            broadcast use axiom_u64_trailing_zeros;

            if self != 0 {
                let t = u64_trailing_zeros(self) as u64;
                assert(self.bit(t as int));
            } else {
                assert forall|i: int| !self.bit(i) by {
                    if 0 <= i < 64 {
                        lemma_u64_ops(0, 0, i as u64, 0);
                    }
                }
            }
        }
        self == 0
    }

    fn count_ones(self) -> (r: u32) {
        let r = u64_count_ones(self);
        assert(Seq::new(64, |i: int| u64_bit(self, i)) =~= Seq::new(Self::width(), |i: int| self.bit(i)));
        r
    }

    fn trailing_zeros(self) -> (r: u32) {
        let r = self.trailing_zeros();
        proof {
            broadcast use axiom_u64_trailing_zeros;

            assert forall|j: int| 0 <= j < r implies !self.bit(j) by {
                let jj = j as u64;
                assert((self >> jj) & 1u64 == 0u64);
            }
        }
        r
    }

    fn leading_zeros(self) -> (r: u32) {
        let r = self.leading_zeros();
        proof {
            broadcast use axiom_u64_leading_zeros;

            if r < 64 {
                lemma_u64_ops(self, self, (63 - r) as u64, 0);
                assert(self.bit(63 - r));
            }
            assert forall|j: int| 64 - r <= j < 64 implies !self.bit(j) by {
                let jj = j as u64;
                assert((self >> jj) & 1u64 == 0u64);
            }
        }
        r
    }

    fn equals(self, other: Self) -> (r: bool) {
        self == other
    }
}

/// Bit `i` of a `u32`, least significant first.
pub open spec fn u32_bit(x: u32, i: int) -> bool {
    0 <= i < 32 && (x >> (i as u32)) & 1u32 == 1u32
}

proof fn lemma_u32_ops(a: u32, b: u32, j: u32, k: u32)
    by (bit_vector)
    requires
        j < 32,
        k < 32,
    ensures
        ((a | b) >> j) & 1 == 1 <==> (((a >> j) & 1 == 1) || ((b >> j) & 1 == 1)),
        ((a & b) >> j) & 1 == 1 <==> (((a >> j) & 1 == 1) && ((b >> j) & 1 == 1)),
        ((a ^ b) >> j) & 1 == 1 <==> (((a >> j) & 1 == 1) != ((b >> j) & 1 == 1)),
        ((a & !b) >> j) & 1 == 1 <==> (((a >> j) & 1 == 1) && !((b >> j) & 1 == 1)),
        ((!a) >> j) & 1 == 1 <==> !((a >> j) & 1 == 1),
        ((0u32 >> j) & 1) != 1,
        ((1u32 << k) >> j) & 1 == 1 <==> j == k,
        a ^ b == 0 ==> a == b,
        (a >> j) & 1 != 1 ==> (a >> j) & 1 == 0,
{
}

impl PrimStore for u32 {
    open spec fn width() -> nat {
        32
    }

    open spec fn bit(self, i: int) -> bool {
        u32_bit(self, i)
    }

    proof fn lemma_width() {
    }

    proof fn lemma_bit_range(w: Self, i: int) {
    }

    proof fn lemma_ext(a: Self, b: Self) {
        let x = a ^ b;
        broadcast use axiom_u32_trailing_zeros;

        if x != 0 {
            let t = u32_trailing_zeros(x) as u32;
            lemma_u32_ops(a, b, t, 0);
            assert(a.bit(t as int) == b.bit(t as int));
        } else {
            lemma_u32_ops(a, b, 0, 0);
        }
    }

    fn bit_width() -> (r: u32) {
        32
    }

    fn zero() -> (r: Self) {
        proof {
            assert forall|i: int| !0u32.bit(i) by {
                if 0 <= i < 32 {
                    lemma_u32_ops(0, 0, i as u32, 0);
                }
            }
        }
        0
    }

    fn single(i: u32) -> (r: Self) {
        let r = 1u32 << i;
        proof {
            assert forall|j: int| r.bit(j) == (j == i) by {
                if 0 <= j < 32 {
                    lemma_u32_ops(0, 0, j as u32, i as u32);
                }
            }
        }
        r
    }

    fn or(self, other: Self) -> (r: Self) {
        let r = self | other;
        proof {
            assert forall|i: int| r.bit(i) == (self.bit(i) || other.bit(i)) by {
                if 0 <= i < 32 {
                    lemma_u32_ops(self, other, i as u32, 0);
                }
            }
        }
        r
    }

    fn and(self, other: Self) -> (r: Self) {
        let r = self & other;
        proof {
            assert forall|i: int| r.bit(i) == (self.bit(i) && other.bit(i)) by {
                if 0 <= i < 32 {
                    lemma_u32_ops(self, other, i as u32, 0);
                }
            }
        }
        r
    }

    fn xor(self, other: Self) -> (r: Self) {
        let r = self ^ other;
        proof {
            assert forall|i: int| r.bit(i) == (self.bit(i) != other.bit(i)) by {
                if 0 <= i < 32 {
                    lemma_u32_ops(self, other, i as u32, 0);
                }
            }
        }
        r
    }

    fn and_not(self, other: Self) -> (r: Self) {
        let r = self & !other;
        proof {
            assert forall|i: int| r.bit(i) == (self.bit(i) && !other.bit(i)) by {
                if 0 <= i < 32 {
                    lemma_u32_ops(self, other, i as u32, 0);
                }
            }
        }
        r
    }

    fn not(self) -> (r: Self) {
        let r = !self;
        proof {
            assert forall|i: int| r.bit(i) == (0 <= i < 32 && !self.bit(i)) by {
                if 0 <= i < 32 {
                    lemma_u32_ops(self, self, i as u32, 0);
                }
            }
        }
        r
    }

    fn is_zero(self) -> (r: bool) {
        proof {
            broadcast use axiom_u32_trailing_zeros;

            if self != 0 {
                let t = u32_trailing_zeros(self) as u32;
                assert(self.bit(t as int));
            } else {
                assert forall|i: int| !self.bit(i) by {
                    if 0 <= i < 32 {
                        lemma_u32_ops(0, 0, i as u32, 0);
                    }
                }
            }
        }
        self == 0
    }

    fn count_ones(self) -> (r: u32) {
        let r = u32_count_ones(self);
        assert(Seq::new(32, |i: int| u32_bit(self, i)) =~= Seq::new(Self::width(), |i: int| self.bit(i)));
        r
    }

    fn trailing_zeros(self) -> (r: u32) {
        let r = self.trailing_zeros();
        proof {
            broadcast use axiom_u32_trailing_zeros;

            assert forall|j: int| 0 <= j < r implies !self.bit(j) by {
                let jj = j as u32;
                assert((self >> jj) & 1u32 == 0u32);
            }
        }
        r
    }

    fn leading_zeros(self) -> (r: u32) {
        let r = self.leading_zeros();
        proof {
            broadcast use axiom_u32_leading_zeros;

            if r < 32 {
                lemma_u32_ops(self, self, (31 - r) as u32, 0);
                assert(self.bit(31 - r));
            }
            assert forall|j: int| 32 - r <= j < 32 implies !self.bit(j) by {
                let jj = j as u32;
                assert((self >> jj) & 1u32 == 0u32);
            }
        }
        r
    }

    fn equals(self, other: Self) -> (r: bool) {
        self == other
    }
}

/// Bit `i` of a `u16`, least significant first.
pub open spec fn u16_bit(x: u16, i: int) -> bool {
    0 <= i < 16 && (x >> (i as u16)) & 1u16 == 1u16
}

proof fn lemma_u16_ops(a: u16, b: u16, j: u16, k: u16)
    by (bit_vector)
    requires
        j < 16,
        k < 16,
    ensures
        ((a | b) >> j) & 1 == 1 <==> (((a >> j) & 1 == 1) || ((b >> j) & 1 == 1)),
        ((a & b) >> j) & 1 == 1 <==> (((a >> j) & 1 == 1) && ((b >> j) & 1 == 1)),
        ((a ^ b) >> j) & 1 == 1 <==> (((a >> j) & 1 == 1) != ((b >> j) & 1 == 1)),
        ((a & !b) >> j) & 1 == 1 <==> (((a >> j) & 1 == 1) && !((b >> j) & 1 == 1)),
        ((!a) >> j) & 1 == 1 <==> !((a >> j) & 1 == 1),
        ((0u16 >> j) & 1) != 1,
        ((1u16 << k) >> j) & 1 == 1 <==> j == k,
        a ^ b == 0 ==> a == b,
        (a >> j) & 1 != 1 ==> (a >> j) & 1 == 0,
{
}

impl PrimStore for u16 {
    open spec fn width() -> nat {
        16
    }

    open spec fn bit(self, i: int) -> bool {
        u16_bit(self, i)
    }

    proof fn lemma_width() {
    }

    proof fn lemma_bit_range(w: Self, i: int) {
    }

    proof fn lemma_ext(a: Self, b: Self) {
        let x = a ^ b;
        broadcast use axiom_u16_trailing_zeros;

        if x != 0 {
            let t = u16_trailing_zeros(x) as u16;
            lemma_u16_ops(a, b, t, 0);
            assert(a.bit(t as int) == b.bit(t as int));
        } else {
            lemma_u16_ops(a, b, 0, 0);
        }
    }

    fn bit_width() -> (r: u32) {
        16
    }

    fn zero() -> (r: Self) {
        proof {
            assert forall|i: int| !0u16.bit(i) by {
                if 0 <= i < 16 {
                    lemma_u16_ops(0, 0, i as u16, 0);
                }
            }
        }
        0
    }

    fn single(i: u32) -> (r: Self) {
        let r = 1u16 << i;
        proof {
            assert forall|j: int| r.bit(j) == (j == i) by {
                if 0 <= j < 16 {
                    lemma_u16_ops(0, 0, j as u16, i as u16);
                }
            }
        }
        r
    }

    fn or(self, other: Self) -> (r: Self) {
        let r = self | other;
        proof {
            assert forall|i: int| r.bit(i) == (self.bit(i) || other.bit(i)) by {
                if 0 <= i < 16 {
                    lemma_u16_ops(self, other, i as u16, 0);
                }
            }
        }
        r
    }

    fn and(self, other: Self) -> (r: Self) {
        let r = self & other;
        proof {
            assert forall|i: int| r.bit(i) == (self.bit(i) && other.bit(i)) by {
                if 0 <= i < 16 {
                    lemma_u16_ops(self, other, i as u16, 0);
                }
            }
        }
        r
    }

    fn xor(self, other: Self) -> (r: Self) {
        let r = self ^ other;
        proof {
            assert forall|i: int| r.bit(i) == (self.bit(i) != other.bit(i)) by {
                if 0 <= i < 16 {
                    lemma_u16_ops(self, other, i as u16, 0);
                }
            }
        }
        r
    }

    fn and_not(self, other: Self) -> (r: Self) {
        let r = self & !other;
        proof {
            assert forall|i: int| r.bit(i) == (self.bit(i) && !other.bit(i)) by {
                if 0 <= i < 16 {
                    lemma_u16_ops(self, other, i as u16, 0);
                }
            }
        }
        r
    }

    fn not(self) -> (r: Self) {
        let r = !self;
        proof {
            assert forall|i: int| r.bit(i) == (0 <= i < 16 && !self.bit(i)) by {
                if 0 <= i < 16 {
                    lemma_u16_ops(self, self, i as u16, 0);
                }
            }
        }
        r
    }

    fn is_zero(self) -> (r: bool) {
        proof {
            broadcast use axiom_u16_trailing_zeros;

            if self != 0 {
                let t = u16_trailing_zeros(self) as u16;
                assert(self.bit(t as int));
            } else {
                assert forall|i: int| !self.bit(i) by {
                    if 0 <= i < 16 {
                        lemma_u16_ops(0, 0, i as u16, 0);
                    }
                }
            }
        }
        self == 0
    }

    fn count_ones(self) -> (r: u32) {
        let r = u16_count_ones(self);
        assert(Seq::new(16, |i: int| u16_bit(self, i)) =~= Seq::new(Self::width(), |i: int| self.bit(i)));
        r
    }

    fn trailing_zeros(self) -> (r: u32) {
        let r = self.trailing_zeros();
        proof {
            broadcast use axiom_u16_trailing_zeros;

            assert forall|j: int| 0 <= j < r implies !self.bit(j) by {
                let jj = j as u16;
                assert((self >> jj) & 1u16 == 0u16);
            }
        }
        r
    }

    fn leading_zeros(self) -> (r: u32) {
        let r = self.leading_zeros();
        proof {
            broadcast use axiom_u16_leading_zeros;

            if r < 16 {
                lemma_u16_ops(self, self, (15 - r) as u16, 0);
                assert(self.bit(15 - r));
            }
            assert forall|j: int| 16 - r <= j < 16 implies !self.bit(j) by {
                let jj = j as u16;
                assert((self >> jj) & 1u16 == 0u16);
            }
        }
        r
    }

    fn equals(self, other: Self) -> (r: bool) {
        self == other
    }
}

/// Bit `i` of a `u8`, least significant first.
pub open spec fn u8_bit(x: u8, i: int) -> bool {
    0 <= i < 8 && (x >> (i as u8)) & 1u8 == 1u8
}

proof fn lemma_u8_ops(a: u8, b: u8, j: u8, k: u8)
    by (bit_vector)
    requires
        j < 8,
        k < 8,
    ensures
        ((a | b) >> j) & 1 == 1 <==> (((a >> j) & 1 == 1) || ((b >> j) & 1 == 1)),
        ((a & b) >> j) & 1 == 1 <==> (((a >> j) & 1 == 1) && ((b >> j) & 1 == 1)),
        ((a ^ b) >> j) & 1 == 1 <==> (((a >> j) & 1 == 1) != ((b >> j) & 1 == 1)),
        ((a & !b) >> j) & 1 == 1 <==> (((a >> j) & 1 == 1) && !((b >> j) & 1 == 1)),
        ((!a) >> j) & 1 == 1 <==> !((a >> j) & 1 == 1),
        ((0u8 >> j) & 1) != 1,
        ((1u8 << k) >> j) & 1 == 1 <==> j == k,
        a ^ b == 0 ==> a == b,
        (a >> j) & 1 != 1 ==> (a >> j) & 1 == 0,
{
}

impl PrimStore for u8 {
    open spec fn width() -> nat {
        8
    }

    open spec fn bit(self, i: int) -> bool {
        u8_bit(self, i)
    }

    proof fn lemma_width() {
    }

    proof fn lemma_bit_range(w: Self, i: int) {
    }

    proof fn lemma_ext(a: Self, b: Self) {
        let x = a ^ b;
        broadcast use axiom_u8_trailing_zeros;

        if x != 0 {
            let t = u8_trailing_zeros(x) as u8;
            lemma_u8_ops(a, b, t, 0);
            assert(a.bit(t as int) == b.bit(t as int));
        } else {
            lemma_u8_ops(a, b, 0, 0);
        }
    }

    fn bit_width() -> (r: u32) {
        8
    }

    fn zero() -> (r: Self) {
        proof {
            assert forall|i: int| !0u8.bit(i) by {
                if 0 <= i < 8 {
                    lemma_u8_ops(0, 0, i as u8, 0);
                }
            }
        }
        0
    }

    fn single(i: u32) -> (r: Self) {
        let r = 1u8 << i;
        proof {
            assert forall|j: int| r.bit(j) == (j == i) by {
                if 0 <= j < 8 {
                    lemma_u8_ops(0, 0, j as u8, i as u8);
                }
            }
        }
        r
    }

    fn or(self, other: Self) -> (r: Self) {
        let r = self | other;
        proof {
            assert forall|i: int| r.bit(i) == (self.bit(i) || other.bit(i)) by {
                if 0 <= i < 8 {
                    lemma_u8_ops(self, other, i as u8, 0);
                }
            }
        }
        r
    }

    fn and(self, other: Self) -> (r: Self) {
        let r = self & other;
        proof {
            assert forall|i: int| r.bit(i) == (self.bit(i) && other.bit(i)) by {
                if 0 <= i < 8 {
                    lemma_u8_ops(self, other, i as u8, 0);
                }
            }
        }
        r
    }

    fn xor(self, other: Self) -> (r: Self) {
        let r = self ^ other;
        proof {
            assert forall|i: int| r.bit(i) == (self.bit(i) != other.bit(i)) by {
                if 0 <= i < 8 {
                    lemma_u8_ops(self, other, i as u8, 0);
                }
            }
        }
        r
    }

    fn and_not(self, other: Self) -> (r: Self) {
        let r = self & !other;
        proof {
            assert forall|i: int| r.bit(i) == (self.bit(i) && !other.bit(i)) by {
                if 0 <= i < 8 {
                    lemma_u8_ops(self, other, i as u8, 0);
                }
            }
        }
        r
    }

    fn not(self) -> (r: Self) {
        let r = !self;
        proof {
            assert forall|i: int| r.bit(i) == (0 <= i < 8 && !self.bit(i)) by {
                if 0 <= i < 8 {
                    lemma_u8_ops(self, self, i as u8, 0);
                }
            }
        }
        r
    }

    fn is_zero(self) -> (r: bool) {
        proof {
            broadcast use axiom_u8_trailing_zeros;

            if self != 0 {
                let t = u8_trailing_zeros(self) as u8;
                assert(self.bit(t as int));
            } else {
                assert forall|i: int| !self.bit(i) by {
                    if 0 <= i < 8 {
                        lemma_u8_ops(0, 0, i as u8, 0);
                    }
                }
            }
        }
        self == 0
    }

    fn count_ones(self) -> (r: u32) {
        let r = u8_count_ones(self);
        assert(Seq::new(8, |i: int| u8_bit(self, i)) =~= Seq::new(Self::width(), |i: int| self.bit(i)));
        r
    }

    fn trailing_zeros(self) -> (r: u32) {
        let r = self.trailing_zeros();
        proof {
            broadcast use axiom_u8_trailing_zeros;

            assert forall|j: int| 0 <= j < r implies !self.bit(j) by {
                let jj = j as u8;
                assert((self >> jj) & 1u8 == 0u8);
            }
        }
        r
    }

    fn leading_zeros(self) -> (r: u32) {
        let r = self.leading_zeros();
        proof {
            broadcast use axiom_u8_leading_zeros;

            if r < 8 {
                lemma_u8_ops(self, self, (7 - r) as u8, 0);
                assert(self.bit(7 - r));
            }
            assert forall|j: int| 8 - r <= j < 8 implies !self.bit(j) by {
                let jj = j as u8;
                assert((self >> jj) & 1u8 == 0u8);
            }
        }
        r
    }

    fn equals(self, other: Self) -> (r: bool) {
        self == other
    }
}

} // verus!
