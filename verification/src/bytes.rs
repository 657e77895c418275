//! Address-sized machine words: big-endian byte conversion, unsigned
//! arithmetic, and ordering.
//!
//! The wire protocol transports addresses and register values as byte
//! sequences; an architecture's word type must therefore convert to and from
//! big-endian bytes. `be_spec` is the mathematical image of a value as a
//! big-endian byte sequence, and both executable conversions are proved
//! against it.

use vstd::prelude::*;

verus! {

/// An unsigned machine word with a big-endian byte-level view.
pub trait BeBytes: Sized + Copy {
    /// The big-endian byte image of this value.
    spec fn be_spec(self) -> Seq<u8>;

    /// The number of bytes in the image.
    spec fn byte_width() -> nat;

    /// The image always has exactly `byte_width()` bytes.
    proof fn lemma_be_spec_len(self)
        ensures
            self.be_spec().len() == Self::byte_width(),
    ;

    /// Two values with the same byte image are the same value.
    proof fn lemma_be_spec_injective(self, other: Self)
        requires
            self.be_spec() == other.be_spec(),
        ensures
            self == other,
    ;

    /// Emit the value as big-endian bytes.
    fn to_be_byte_vec(self) -> (r: Vec<u8>)
        ensures
            r@ == self.be_spec(),
    ;

    /// Rebuild a value from big-endian bytes; `None` exactly when the buffer
    /// length is not the type's byte width.
    fn from_be_byte_vec(bytes: &Vec<u8>) -> (r: Option<Self>)
        ensures
            r matches Some(v) ==> bytes@ == v.be_spec(),
            r is Some <==> bytes@.len() == Self::byte_width(),
    ;
}

/// An unsigned machine word fit to be an architecture's address type: it
/// carries unsigned arithmetic and ordering, stated over its numeric
/// value, on top of the big-endian byte view of [`BeBytes`].
pub trait ArchWord: BeBytes {
    /// The numeric value of the word.
    spec fn as_nat(self) -> nat;

    /// The largest value the word can hold.
    spec fn max_value() -> nat;

    /// The word is its numeric value: equal values are equal words.
    proof fn lemma_as_nat_injective(self, other: Self)
        requires
            self.as_nat() == other.as_nat(),
        ensures
            self == other,
    ;

    /// The zero word.
    fn zero() -> (r: Self)
        ensures
            r.as_nat() == 0,
    ;

    /// Checked addition: `Some` of the exact sum when it fits the word.
    fn add_checked(self, other: Self) -> (r: Option<Self>)
        ensures
            r matches Some(v) ==> v.as_nat() == self.as_nat() + other.as_nat(),
            r is Some <==> self.as_nat() + other.as_nat() <= Self::max_value(),
    ;

    /// Checked subtraction: `Some` of the exact difference when it is not
    /// negative.
    fn sub_checked(self, other: Self) -> (r: Option<Self>)
        ensures
            r matches Some(v) ==> v.as_nat() + other.as_nat() == self.as_nat(),
            r is Some <==> other.as_nat() <= self.as_nat(),
    ;

    /// Ordering by numeric value.
    fn less_than(self, other: Self) -> (r: bool)
        ensures
            r == (self.as_nat() < other.as_nat()),
    ;
}

/// The four big-endian bytes of a 32-bit word, most significant first.
pub open spec fn be32(v: u32) -> Seq<u8> {
    seq![
        (v >> 24) as u8,
        ((v >> 16) & 0xff) as u8,
        ((v >> 8) & 0xff) as u8,
        (v & 0xff) as u8,
    ]
}

impl BeBytes for u32 {
    open spec fn be_spec(self) -> Seq<u8> {
        be32(self)
    }

    open spec fn byte_width() -> nat {
        4
    }

    proof fn lemma_be_spec_len(self) {
    }

    proof fn lemma_be_spec_injective(self, other: Self) {
        let a = self;
        let b = other;
        assert(be32(a)[0] == be32(b)[0]);
        assert(be32(a)[1] == be32(b)[1]);
        assert(be32(a)[2] == be32(b)[2]);
        assert(be32(a)[3] == be32(b)[3]);
        assert((a >> 24) as u8 == (b >> 24) as u8
            && ((a >> 16) & 0xff) as u8 == ((b >> 16) & 0xff) as u8
            && ((a >> 8) & 0xff) as u8 == ((b >> 8) & 0xff) as u8
            && (a & 0xff) as u8 == (b & 0xff) as u8
            ==> a == b) by (bit_vector);
    }

    fn to_be_byte_vec(self) -> (r: Vec<u8>) {
        let mut r: Vec<u8> = Vec::new();
        r.push((self >> 24) as u8);
        r.push(((self >> 16) & 0xff) as u8);
        r.push(((self >> 8) & 0xff) as u8);
        r.push((self & 0xff) as u8);
        proof {
            assert(r@ =~= be32(self));
        }
        r
    }

    fn from_be_byte_vec(bytes: &Vec<u8>) -> (r: Option<Self>) {
        if bytes.len() != 4 {
            return None;
        }
        let b0 = bytes[0];
        let b1 = bytes[1];
        let b2 = bytes[2];
        let b3 = bytes[3];
        let v: u32 = ((b0 as u32) << 24) | ((b1 as u32) << 16) | ((b2 as u32) << 8) | (b3 as u32);
        proof {
            let w = (((b0 as u32) << 24) | ((b1 as u32) << 16) | ((b2 as u32) << 8)
                | (b3 as u32)) as u32;
            assert((w >> 24) as u8 == b0) by (bit_vector)
                requires
                    w == (((b0 as u32) << 24) | ((b1 as u32) << 16) | ((b2 as u32) << 8)
                        | (b3 as u32)),
            ;
            assert(((w >> 16) & 0xff) as u8 == b1) by (bit_vector)
                requires
                    w == (((b0 as u32) << 24) | ((b1 as u32) << 16) | ((b2 as u32) << 8)
                        | (b3 as u32)),
            ;
            assert(((w >> 8) & 0xff) as u8 == b2) by (bit_vector)
                requires
                    w == (((b0 as u32) << 24) | ((b1 as u32) << 16) | ((b2 as u32) << 8)
                        | (b3 as u32)),
            ;
            assert((w & 0xff) as u8 == b3) by (bit_vector)
                requires
                    w == (((b0 as u32) << 24) | ((b1 as u32) << 16) | ((b2 as u32) << 8)
                        | (b3 as u32)),
            ;
            assert(be32(v) =~= bytes@);
        }
        Some(v)
    }
}

impl ArchWord for u32 {
    open spec fn as_nat(self) -> nat {
        self as nat
    }

    open spec fn max_value() -> nat {
        0xFFFF_FFFF
    }

    proof fn lemma_as_nat_injective(self, other: Self) {
    }

    fn zero() -> (r: Self) {
        0
    }

    fn add_checked(self, other: Self) -> (r: Option<Self>) {
        if self <= u32::MAX - other {
            Some(self + other)
        } else {
            None
        }
    }

    fn sub_checked(self, other: Self) -> (r: Option<Self>) {
        if other <= self {
            Some(self - other)
        } else {
            None
        }
    }

    fn less_than(self, other: Self) -> (r: bool) {
        self < other
    }
}

/// The eight big-endian bytes of a 64-bit word, most significant first.
pub open spec fn be64(v: u64) -> Seq<u8> {
    seq![
        (v >> 56) as u8,
        ((v >> 48) & 0xff) as u8,
        ((v >> 40) & 0xff) as u8,
        ((v >> 32) & 0xff) as u8,
        ((v >> 24) & 0xff) as u8,
        ((v >> 16) & 0xff) as u8,
        ((v >> 8) & 0xff) as u8,
        (v & 0xff) as u8,
    ]
}

impl BeBytes for u64 {
    open spec fn be_spec(self) -> Seq<u8> {
        be64(self)
    }

    open spec fn byte_width() -> nat {
        8
    }

    proof fn lemma_be_spec_len(self) {
    }

    proof fn lemma_be_spec_injective(self, other: Self) {
        let a = self;
        let b = other;
        assert(be64(a)[0] == be64(b)[0]);
        assert(be64(a)[1] == be64(b)[1]);
        assert(be64(a)[2] == be64(b)[2]);
        assert(be64(a)[3] == be64(b)[3]);
        assert(be64(a)[4] == be64(b)[4]);
        assert(be64(a)[5] == be64(b)[5]);
        assert(be64(a)[6] == be64(b)[6]);
        assert(be64(a)[7] == be64(b)[7]);
        assert((a >> 56) as u8 == (b >> 56) as u8
            && ((a >> 48) & 0xff) as u8 == ((b >> 48) & 0xff) as u8
            && ((a >> 40) & 0xff) as u8 == ((b >> 40) & 0xff) as u8
            && ((a >> 32) & 0xff) as u8 == ((b >> 32) & 0xff) as u8
            && ((a >> 24) & 0xff) as u8 == ((b >> 24) & 0xff) as u8
            && ((a >> 16) & 0xff) as u8 == ((b >> 16) & 0xff) as u8
            && ((a >> 8) & 0xff) as u8 == ((b >> 8) & 0xff) as u8
            && (a & 0xff) as u8 == (b & 0xff) as u8
            ==> a == b) by (bit_vector);
    }

    fn to_be_byte_vec(self) -> (r: Vec<u8>) {
        let mut r: Vec<u8> = Vec::new();
        r.push((self >> 56) as u8);
        r.push(((self >> 48) & 0xff) as u8);
        r.push(((self >> 40) & 0xff) as u8);
        r.push(((self >> 32) & 0xff) as u8);
        r.push(((self >> 24) & 0xff) as u8);
        r.push(((self >> 16) & 0xff) as u8);
        r.push(((self >> 8) & 0xff) as u8);
        r.push((self & 0xff) as u8);
        proof {
            assert(r@ =~= be64(self));
        }
        r
    }

    fn from_be_byte_vec(bytes: &Vec<u8>) -> (r: Option<Self>) {
        if bytes.len() != 8 {
            return None;
        }
        let b0 = bytes[0];
        let b1 = bytes[1];
        let b2 = bytes[2];
        let b3 = bytes[3];
        let b4 = bytes[4];
        let b5 = bytes[5];
        let b6 = bytes[6];
        let b7 = bytes[7];
        let hi: u32 = ((b0 as u32) << 24) | ((b1 as u32) << 16) | ((b2 as u32) << 8) | (b3 as u32);
        let lo: u32 = ((b4 as u32) << 24) | ((b5 as u32) << 16) | ((b6 as u32) << 8) | (b7 as u32);
        let v: u64 = ((hi as u64) << 32) | (lo as u64);
        proof {
            let w = (((hi as u64) << 32) | (lo as u64)) as u64;
            assert((w >> 56) as u8 == (hi >> 24) as u8 && ((w >> 48) & 0xff) as u8 == ((hi >> 16)
                & 0xff) as u8 && ((w >> 40) & 0xff) as u8 == ((hi >> 8) & 0xff) as u8 && ((w >> 32)
                & 0xff) as u8 == (hi & 0xff) as u8 && ((w >> 24) & 0xff) as u8 == (lo >> 24) as u8
                && ((w >> 16) & 0xff) as u8 == ((lo >> 16) & 0xff) as u8 && ((w >> 8) & 0xff) as u8
                == ((lo >> 8) & 0xff) as u8 && (w & 0xff) as u8 == (lo & 0xff) as u8) by (bit_vector)
                requires
                    w == (((hi as u64) << 32) | (lo as u64)),
            ;
            let h = ((((b0 as u32) << 24) | ((b1 as u32) << 16) | ((b2 as u32) << 8)
                | (b3 as u32)) as u32);
            assert((h >> 24) as u8 == b0 && ((h >> 16) & 0xff) as u8 == b1 && ((h >> 8)
                & 0xff) as u8 == b2 && (h & 0xff) as u8 == b3) by (bit_vector)
                requires
                    h == (((b0 as u32) << 24) | ((b1 as u32) << 16) | ((b2 as u32) << 8) | (
                    b3 as u32)),
            ;
            let l = ((((b4 as u32) << 24) | ((b5 as u32) << 16) | ((b6 as u32) << 8)
                | (b7 as u32)) as u32);
            assert((l >> 24) as u8 == b4 && ((l >> 16) & 0xff) as u8 == b5 && ((l >> 8)
                & 0xff) as u8 == b6 && (l & 0xff) as u8 == b7) by (bit_vector)
                requires
                    l == (((b4 as u32) << 24) | ((b5 as u32) << 16) | ((b6 as u32) << 8) | (
                    b7 as u32)),
            ;
            assert(be64(v) =~= bytes@);
        }
        Some(v)
    }
}

impl ArchWord for u64 {
    open spec fn as_nat(self) -> nat {
        self as nat
    }

    open spec fn max_value() -> nat {
        0xFFFF_FFFF_FFFF_FFFF
    }

    proof fn lemma_as_nat_injective(self, other: Self) {
    }

    fn zero() -> (r: Self) {
        0
    }

    fn add_checked(self, other: Self) -> (r: Option<Self>) {
        if self <= u64::MAX - other {
            Some(self + other)
        } else {
            None
        }
    }

    fn sub_checked(self, other: Self) -> (r: Option<Self>) {
        if other <= self {
            Some(self - other)
        } else {
            None
        }
    }

    fn less_than(self, other: Self) -> (r: bool) {
        self < other
    }
}

} // verus!
