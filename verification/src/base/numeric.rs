//! Floating-point numbers as bit patterns.
//!
//! The library reads the sign, the order and the validity of a number off its
//! IEEE 754 encoding and never computes with it.
use vstd::prelude::*;

verus! {

/// A half-precision number, by its encoding.
#[derive(Debug, Clone, Copy, PartialEq, Eq, Hash, Structural)]
pub struct Half {
    pub bits: u16,
}

/// A single-precision number, by its encoding.
#[derive(Debug, Clone, Copy, PartialEq, Eq, Hash, Structural)]
pub struct Single {
    pub bits: u32,
}

/// A double-precision number, by its encoding.
#[derive(Debug, Clone, Copy, PartialEq, Eq, Hash, Structural)]
pub struct Double {
    pub bits: u64,
}

/// The encoding of positive infinity in single precision.
pub const SINGLE_INFINITY: u32 = 0x7f80_0000;

/// The sign bit in single precision.
pub const SINGLE_SIGN: u32 = 0x8000_0000;

/// The encoding of positive infinity in double precision.
pub const DOUBLE_INFINITY: u64 = 0x7ff0_0000_0000_0000;

/// The sign bit in double precision.
pub const DOUBLE_SIGN: u64 = 0x8000_0000_0000_0000;

impl Single {
    /// The encoding without its sign bit.
    pub open spec fn magnitude(self) -> int {
        if self.bits >= SINGLE_SIGN {
            self.bits - SINGLE_SIGN
        } else {
            self.bits as int
        }
    }

    /// Not a number.
    pub open spec fn nan(self) -> bool {
        self.magnitude() > SINGLE_INFINITY
    }

    /// A number's place in the order of all numbers; both zeros have place 0.
    pub open spec fn rank(self) -> int {
        if self.bits >= SINGLE_SIGN {
            -self.magnitude()
        } else {
            self.magnitude()
        }
    }

    /// `self < other`; false where either is not a number.
    pub open spec fn below(self, other: Self) -> bool {
        !self.nan() && !other.nan() && self.rank() < other.rank()
    }

    /// Neither infinite nor not a number.
    pub open spec fn finite(self) -> bool {
        self.magnitude() < SINGLE_INFINITY
    }

    /// The number that `bits` encodes.
    pub fn from_bits(bits: u32) -> (res: Self)
        ensures
            res.bits == bits,
    {
        Single { bits }
    }

    /// The encoding of the number.
    pub fn to_bits(self) -> (res: u32)
        ensures
            res == self.bits,
    {
        self.bits
    }

    fn magnitude_bits(self) -> (res: u32)
        ensures
            res == self.magnitude(),
    {
        if self.bits >= SINGLE_SIGN {
            self.bits - SINGLE_SIGN
        } else {
            self.bits
        }
    }

    /// Whether the encoding is not a number.
    pub fn is_nan(self) -> (res: bool)
        ensures
            res == self.nan(),
    {
        self.magnitude_bits() > SINGLE_INFINITY
    }

    /// Whether the number is neither infinite nor not a number.
    pub fn is_finite(self) -> (res: bool)
        ensures
            res == self.finite(),
    {
        self.magnitude_bits() < SINGLE_INFINITY
    }

    /// Whether `self < other`.
    pub fn is_below(self, other: Self) -> (res: bool)
        ensures
            res == self.below(other),
    {
        if self.is_nan() || other.is_nan() {
            return false;
        }
        let a: u32 = self.magnitude_bits();
        let b: u32 = other.magnitude_bits();
        if self.bits >= SINGLE_SIGN {
            if other.bits >= SINGLE_SIGN {
                b < a
            } else {
                a > 0 || b > 0
            }
        } else {
            if other.bits >= SINGLE_SIGN {
                false
            } else {
                a < b
            }
        }
    }
}

impl Double {
    /// The encoding without its sign bit.
    pub open spec fn magnitude(self) -> int {
        if self.bits >= DOUBLE_SIGN {
            self.bits - DOUBLE_SIGN
        } else {
            self.bits as int
        }
    }

    /// Zero, or a number below zero. False of what is not a number.
    pub open spec fn at_most_zero(self) -> bool {
        self.magnitude() <= DOUBLE_INFINITY && (self.bits >= DOUBLE_SIGN || self.magnitude() == 0)
    }

    /// The number that `bits` encodes.
    pub fn from_bits(bits: u64) -> (res: Self)
        ensures
            res.bits == bits,
    {
        Double { bits }
    }

    /// The encoding of the number.
    pub fn to_bits(self) -> (res: u64)
        ensures
            res == self.bits,
    {
        self.bits
    }

    /// Whether the number is zero or below.
    pub fn is_at_most_zero(self) -> (res: bool)
        ensures
            res == self.at_most_zero(),
    {
        if self.bits >= DOUBLE_SIGN {
            self.bits - DOUBLE_SIGN <= DOUBLE_INFINITY
        } else {
            self.bits == 0
        }
    }
}

/// The order on single-precision numbers is a strict weak order.
pub proof fn below_is_an_order(a: Single, b: Single, c: Single)
    ensures
        !a.below(a),
        a.below(b) ==> !b.below(a),
        a.below(b) && b.below(c) ==> a.below(c),
        !a.nan() && !b.nan() && !c.nan() && a.below(c) ==> a.below(b) || b.below(c),
{
}

/// Byte `k` of an encoding, counted from the low end.
pub open spec fn byte_at(bits: u32, k: int) -> u8 {
    if k == 0 {
        (bits % 256) as u8
    } else if k == 1 {
        (bits / 256 % 256) as u8
    } else if k == 2 {
        (bits / 65536 % 256) as u8
    } else {
        (bits / 16777216) as u8
    }
}

/// The encodings of some numbers, four bytes each, low byte first.
pub open spec fn encoded(s: Seq<Single>) -> Seq<u8> {
    Seq::new(4 * s.len(), |i: int| byte_at(s[i / 4].bits, i % 4))
}

/// The numbers encoded in `bytes`, four bytes each, low byte first. What is left over
/// at the end belongs to none.
pub open spec fn singles(bytes: Seq<u8>) -> Seq<Single> {
    Seq::new(
        bytes.len() / 4,
        |i: int|
            Single {
                bits: (bytes[4 * i] + 256 * bytes[4 * i + 1] + 65536 * bytes[4 * i + 2] + 16777216
                    * bytes[4 * i + 3]) as u32,
            },
    )
}

/// Writes numbers as bytes.
pub fn encode_singles(v: &[Single]) -> (res: Vec<u8>)
    ensures
        res@ == encoded(v@),
{
    let mut bytes: Vec<u8> = Vec::new();
    let mut i: usize = 0;
    while i < v.len()
        invariant
            i <= v@.len(),
            bytes@ =~= encoded(v@.take(i as int)),
        decreases v@.len() - i,
    {
        let bits: u32 = v[i].bits;
        let ghost before = bytes@;
        bytes.push((bits % 256) as u8);
        bytes.push((bits / 256 % 256) as u8);
        bytes.push((bits / 65536 % 256) as u8);
        bytes.push((bits / 16777216) as u8);
        proof {
            let next = v@.take(i + 1);
            assert forall|k: int| 0 <= k < 4 * (i + 1) implies bytes@[k] == #[trigger] encoded(
                next,
            )[k] by {
                if k < 4 * i {
                    assert(bytes@[k] == before[k]);
                    assert(v@.take(i as int)[k / 4] == next[k / 4]);
                } else {
                    assert(k / 4 == i && k % 4 == k - 4 * i);
                }
            }
            assert(bytes@ =~= encoded(next));
        }
        i = i + 1;
    }
    assert(v@.take(i as int) =~= v@);
    bytes
}

/// Reads numbers from bytes.
pub fn decode_singles(bytes: &[u8]) -> (res: Vec<Single>)
    ensures
        res@ == singles(bytes@),
{
    let len: usize = bytes.len();
    let n: usize = len / 4;
    let mut v: Vec<Single> = Vec::new();
    let mut i: usize = 0;
    while i < n
        invariant
            i <= n,
            len == bytes@.len(),
            n == len / 4,
            v@ =~= singles(bytes@).take(i as int),
        decreases n - i,
    {
        let a: u32 = bytes[4 * i] as u32;
        let b: u32 = bytes[4 * i + 1] as u32;
        let c: u32 = bytes[4 * i + 2] as u32;
        let d: u32 = bytes[4 * i + 3] as u32;
        v.push(Single { bits: a + 256 * b + 65536 * c + 16777216 * d });
        i = i + 1;
    }
    assert(singles(bytes@).take(i as int) =~= singles(bytes@));
    v
}

/// Numbers that were written as bytes are read back.
pub proof fn decoding_undoes_encoding(s: Seq<Single>)
    ensures
        singles(encoded(s)) == s,
{
    let bytes = encoded(s);
    assert forall|i: int| 0 <= i < s.len() implies #[trigger] singles(bytes)[i] == s[i] by {
        let x = s[i].bits;
        assert(bytes[4 * i] == byte_at(x, 0));
        assert(bytes[4 * i + 1] == byte_at(x, 1));
        assert(bytes[4 * i + 2] == byte_at(x, 2));
        assert(bytes[4 * i + 3] == byte_at(x, 3));
    }
    assert(singles(bytes) =~= s);
}

} // verus!
