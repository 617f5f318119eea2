//! Deterministic, self-describing byte serialization for keys and values.
//!
//! A [`Codec`] type has one canonical encoding per value, and decoding an
//! encoding gives the value back. A [`KeyCodec`] type additionally encodes to
//! a fixed number of bytes, in such a way that the byte-lexicographic order of
//! encodings is exactly the type's own order; composite (tuple) keys
//! concatenate their fields' encodings in declaration order, which makes the
//! byte order the lexicographic order of the field tuple.

use vstd::prelude::*;

use crate::error::Error;
use crate::lex::{lex_le, lex_lt};

verus! {

/// A value with a canonical byte encoding.
pub trait Codec: Sized {
    /// The canonical encoding of the value.
    spec fn enc(&self) -> Seq<u8>;

    /// Which byte strings are canonical encodings, and of which value.
    spec fn dec(b: Seq<u8>) -> Option<Self>;

    /// Decoding an encoding gives the value back.
    proof fn lemma_enc_dec(&self)
        ensures
            Self::dec(self.enc()) == Some(*self),
    ;

    /// Encodings are canonical: a byte string that decodes is the encoding
    /// of the value it decodes to.
    proof fn lemma_dec_enc(b: Seq<u8>)
        ensures
            Self::dec(b) matches Some(v) ==> v.enc() == b,
    ;

    /// Produce the canonical encoding.
    fn encode(&self) -> (r: Vec<u8>)
        ensures
            r@ == self.enc(),
    ;

    /// Parse a canonical encoding; any other byte string is rejected.
    fn decode(b: &[u8]) -> (r: Result<Self, Error>)
        ensures
            (match Self::dec(b@) {
                Some(v) => r matches Ok(x) && x == v,
                None => r matches Err(e) && e == Error::Decode,
            }),
    ;
}

/// Two values with the same encoding are the same value.
pub proof fn lemma_enc_injective<T: Codec>(a: &T, b: &T)
    requires
        a.enc() == b.enc(),
    ensures
        a == b,
{
    a.lemma_enc_dec();
    b.lemma_enc_dec();
}

/// A value usable as a key: its encoding has a fixed width, and the
/// byte-lexicographic order of encodings is the type's own order.
pub trait KeyCodec: Codec {
    /// The key's own strict order.
    spec fn key_lt(&self, other: &Self) -> bool;

    /// The fixed width of the encoding.
    spec fn width() -> nat;

    /// The fixed width, at run time.
    fn width_bytes() -> (n: usize)
        ensures
            n == Self::width(),
    ;

    /// Every encoding has the fixed width.
    proof fn lemma_enc_width(&self)
        ensures
            self.enc().len() == Self::width(),
    ;

    /// Byte-lexicographic order of encodings is the key order.
    proof fn lemma_enc_order(&self, other: &Self)
        ensures
            lex_lt(self.enc(), other.enc()) <==> self.key_lt(other),
    ;

    /// Any two distinct keys are related by the order.
    proof fn lemma_key_connected(&self, other: &Self)
        ensures
            self.key_lt(other) || other.key_lt(self) || self == other,
    ;
}

/// A primitive key: a key whose encoding is at most eight bytes wide, so
/// that the widths of composite keys built from primitives cannot overflow.
pub trait PrimKey: KeyCodec {
    /// The width of a primitive key's encoding is at most eight bytes.
    proof fn lemma_width_small()
        ensures
            Self::width() <= 8,
    ;
}


// ---------------------------------------------------------------------------
// Big-endian unsigned integer encodings.
// ---------------------------------------------------------------------------

pub open spec fn be_u8(x: u8) -> Seq<u8> {
    seq![x]
}

pub open spec fn be_u16(x: u16) -> Seq<u8> {
    seq![((x >> 8) & 0xff) as u8, (x & 0xff) as u8]
}

pub open spec fn be_u32(x: u32) -> Seq<u8> {
    seq![
        ((x >> 24) & 0xff) as u8,
        ((x >> 16) & 0xff) as u8,
        ((x >> 8) & 0xff) as u8,
        (x & 0xff) as u8,
    ]
}

pub open spec fn be_u64(x: u64) -> Seq<u8> {
    seq![
        ((x >> 56) & 0xff) as u8,
        ((x >> 48) & 0xff) as u8,
        ((x >> 40) & 0xff) as u8,
        ((x >> 32) & 0xff) as u8,
        ((x >> 24) & 0xff) as u8,
        ((x >> 16) & 0xff) as u8,
        ((x >> 8) & 0xff) as u8,
        (x & 0xff) as u8,
    ]
}

pub open spec fn de_u16(b: Seq<u8>) -> u16
    recommends
        b.len() == 2,
{
    (b[0] as u16) << 8 | (b[1] as u16)
}

pub open spec fn de_u32(b: Seq<u8>) -> u32
    recommends
        b.len() == 4,
{
    (b[0] as u32) << 24 | (b[1] as u32) << 16 | (b[2] as u32) << 8 | (b[3] as u32)
}

pub open spec fn de_u64(b: Seq<u8>) -> u64
    recommends
        b.len() == 8,
{
    (b[0] as u64) << 56 | (b[1] as u64) << 48 | (b[2] as u64) << 40 | (b[3] as u64) << 32 | (
    b[4] as u64) << 24 | (b[5] as u64) << 16 | (b[6] as u64) << 8 | (b[7] as u64)
}

proof fn lemma_be_u16_round_trip(x: u16)
    ensures
        de_u16(be_u16(x)) == x,
{
    assert(((((x >> 8) & 0xff) as u8) as u16) << 8 | (((x & 0xff) as u8) as u16) == x)
        by (bit_vector);
}

proof fn lemma_be_u32_round_trip(x: u32)
    ensures
        de_u32(be_u32(x)) == x,
{
    assert(((((x >> 24) & 0xff) as u8) as u32) << 24 | ((((x >> 16) & 0xff) as u8) as u32) << 16
        | ((((x >> 8) & 0xff) as u8) as u32) << 8 | (((x & 0xff) as u8) as u32) == x)
        by (bit_vector);
}

proof fn lemma_be_u64_round_trip(x: u64)
    ensures
        de_u64(be_u64(x)) == x,
{
    assert(((((x >> 56) & 0xff) as u8) as u64) << 56 | ((((x >> 48) & 0xff) as u8) as u64) << 48
        | ((((x >> 40) & 0xff) as u8) as u64) << 40 | ((((x >> 32) & 0xff) as u8) as u64) << 32
        | ((((x >> 24) & 0xff) as u8) as u64) << 24 | ((((x >> 16) & 0xff) as u8) as u64) << 16
        | ((((x >> 8) & 0xff) as u8) as u64) << 8 | (((x & 0xff) as u8) as u64) == x)
        by (bit_vector);
}

impl Codec for u8 {
    open spec fn enc(&self) -> Seq<u8> {
        be_u8(*self)
    }

    open spec fn dec(b: Seq<u8>) -> Option<u8> {
        if b.len() == 1 {
            Some(b[0])
        } else {
            None
        }
    }

    proof fn lemma_enc_dec(&self) {
    }

    proof fn lemma_dec_enc(b: Seq<u8>) {
        if b.len() == 1 {
            assert(be_u8(b[0]) =~= b);
        }
    }

    fn encode(&self) -> (r: Vec<u8>) {
        let mut r: Vec<u8> = Vec::new();
        r.push(*self);
        proof {
            assert(r@ =~= be_u8(*self));
        }
        r
    }

    fn decode(b: &[u8]) -> (r: Result<u8, Error>) {
        if b.len() == 1 {
            Ok(b[0])
        } else {
            Err(Error::Decode)
        }
    }
}

impl KeyCodec for u8 {
    open spec fn key_lt(&self, other: &Self) -> bool {
        *self < *other
    }

    open spec fn width() -> nat {
        1
    }

    fn width_bytes() -> usize {
        1
    }

    proof fn lemma_enc_width(&self) {
    }

    proof fn lemma_key_connected(&self, other: &Self) {
    }

    proof fn lemma_enc_order(&self, other: &Self) {
        lemma_lex_unfold_eq_len(self.enc(), other.enc(), 1);
    }
}

impl Codec for u16 {
    open spec fn enc(&self) -> Seq<u8> {
        be_u16(*self)
    }

    open spec fn dec(b: Seq<u8>) -> Option<u16> {
        if b.len() == 2 {
            Some(de_u16(b))
        } else {
            None
        }
    }

    proof fn lemma_enc_dec(&self) {
        lemma_be_u16_round_trip(*self);
    }

    proof fn lemma_dec_enc(b: Seq<u8>) {
        if b.len() == 2 {
            let x = de_u16(b);
            let s0 = b[0];
            let s1 = b[1];
            assert((x == (s0 as u16) << 8 | (s1 as u16)) ==> (s0 == ((x >> 8) & 0xff) as u8 && s1
                == (x & 0xff) as u8)) by (bit_vector);
            assert(be_u16(x) =~= b);
        }
    }

    fn encode(&self) -> (r: Vec<u8>) {
        let x = *self;
        let mut r: Vec<u8> = Vec::new();
        r.push(((x >> 8) & 0xff) as u8);
        r.push((x & 0xff) as u8);
        proof {
            assert(r@ =~= be_u16(x));
        }
        r
    }

    fn decode(b: &[u8]) -> (r: Result<u16, Error>) {
        if b.len() == 2 {
            let x: u16 = (b[0] as u16) << 8 | (b[1] as u16);
            Ok(x)
        } else {
            Err(Error::Decode)
        }
    }
}

impl KeyCodec for u16 {
    open spec fn key_lt(&self, other: &Self) -> bool {
        *self < *other
    }

    open spec fn width() -> nat {
        2
    }

    fn width_bytes() -> usize {
        2
    }

    proof fn lemma_enc_width(&self) {
    }

    proof fn lemma_key_connected(&self, other: &Self) {
    }

    proof fn lemma_enc_order(&self, other: &Self) {
        let x = *self;
        let y = *other;
        let s = self.enc();
        let t = other.enc();
        assert((x < y) <==> ((((x >> 8) & 0xff) as u8) < (((y >> 8) & 0xff) as u8) || ((((x >> 8)
            & 0xff) as u8) == (((y >> 8) & 0xff) as u8) && ((x & 0xff) as u8) < ((y
            & 0xff) as u8)))) by (bit_vector);
        lemma_lex_unfold_eq_len(s, t, 2);
    }
}

impl Codec for u32 {
    open spec fn enc(&self) -> Seq<u8> {
        be_u32(*self)
    }

    open spec fn dec(b: Seq<u8>) -> Option<u32> {
        if b.len() == 4 {
            Some(de_u32(b))
        } else {
            None
        }
    }

    proof fn lemma_enc_dec(&self) {
        lemma_be_u32_round_trip(*self);
    }

    proof fn lemma_dec_enc(b: Seq<u8>) {
        if b.len() == 4 {
            let x = de_u32(b);
            let s0 = b[0];
            let s1 = b[1];
            let s2 = b[2];
            let s3 = b[3];
            assert((x == (s0 as u32) << 24 | (s1 as u32) << 16 | (s2 as u32) << 8 | (s3 as u32))
                ==> (s0 == ((x >> 24) & 0xff) as u8 && s1 == ((x >> 16) & 0xff) as u8 && s2 == ((x
                >> 8) & 0xff) as u8 && s3 == (x & 0xff) as u8)) by (bit_vector);
            assert(be_u32(x) =~= b);
        }
    }

    fn encode(&self) -> (r: Vec<u8>) {
        let x = *self;
        let mut r: Vec<u8> = Vec::new();
        r.push(((x >> 24) & 0xff) as u8);
        r.push(((x >> 16) & 0xff) as u8);
        r.push(((x >> 8) & 0xff) as u8);
        r.push((x & 0xff) as u8);
        proof {
            assert(r@ =~= be_u32(x));
        }
        r
    }

    fn decode(b: &[u8]) -> (r: Result<u32, Error>) {
        if b.len() == 4 {
            let x: u32 = (b[0] as u32) << 24 | (b[1] as u32) << 16 | (b[2] as u32) << 8 | (
            b[3] as u32);
            Ok(x)
        } else {
            Err(Error::Decode)
        }
    }
}

impl KeyCodec for u32 {
    open spec fn key_lt(&self, other: &Self) -> bool {
        *self < *other
    }

    open spec fn width() -> nat {
        4
    }

    fn width_bytes() -> usize {
        4
    }

    proof fn lemma_enc_width(&self) {
    }

    proof fn lemma_key_connected(&self, other: &Self) {
    }

    proof fn lemma_enc_order(&self, other: &Self) {
        let x = *self;
        let y = *other;
        let s = self.enc();
        let t = other.enc();
        assert((x < y) <==> ((((x >> 24) & 0xff) as u8) < (((y >> 24) & 0xff) as u8) || ((((x
            >> 24) & 0xff) as u8) == (((y >> 24) & 0xff) as u8) && ((((x >> 16) & 0xff) as u8) < (((
        y >> 16) & 0xff) as u8) || ((((x >> 16) & 0xff) as u8) == (((y >> 16) & 0xff) as u8) && ((((
        x >> 8) & 0xff) as u8) < (((y >> 8) & 0xff) as u8) || ((((x >> 8) & 0xff) as u8) == (((y
            >> 8) & 0xff) as u8) && ((x & 0xff) as u8) < ((y & 0xff) as u8)))))))) by (bit_vector);
        lemma_lex_unfold_eq_len(s, t, 4);
    }
}

impl Codec for u64 {
    open spec fn enc(&self) -> Seq<u8> {
        be_u64(*self)
    }

    open spec fn dec(b: Seq<u8>) -> Option<u64> {
        if b.len() == 8 {
            Some(de_u64(b))
        } else {
            None
        }
    }

    proof fn lemma_enc_dec(&self) {
        lemma_be_u64_round_trip(*self);
    }

    proof fn lemma_dec_enc(b: Seq<u8>) {
        if b.len() == 8 {
            let x = de_u64(b);
            let s0 = b[0];
            let s1 = b[1];
            let s2 = b[2];
            let s3 = b[3];
            let s4 = b[4];
            let s5 = b[5];
            let s6 = b[6];
            let s7 = b[7];
            assert((x == (s0 as u64) << 56 | (s1 as u64) << 48 | (s2 as u64) << 40 | (
            s3 as u64) << 32 | (s4 as u64) << 24 | (s5 as u64) << 16 | (s6 as u64) << 8 | (
            s7 as u64)) ==> (s0 == ((x >> 56) & 0xff) as u8 && s1 == ((x >> 48) & 0xff) as u8 && s2
                == ((x >> 40) & 0xff) as u8 && s3 == ((x >> 32) & 0xff) as u8 && s4 == ((x >> 24)
                & 0xff) as u8 && s5 == ((x >> 16) & 0xff) as u8 && s6 == ((x >> 8) & 0xff) as u8
                && s7 == (x & 0xff) as u8)) by (bit_vector);
            assert(be_u64(x) =~= b);
        }
    }

    fn encode(&self) -> (r: Vec<u8>) {
        let x = *self;
        let mut r: Vec<u8> = Vec::new();
        r.push(((x >> 56) & 0xff) as u8);
        r.push(((x >> 48) & 0xff) as u8);
        r.push(((x >> 40) & 0xff) as u8);
        r.push(((x >> 32) & 0xff) as u8);
        r.push(((x >> 24) & 0xff) as u8);
        r.push(((x >> 16) & 0xff) as u8);
        r.push(((x >> 8) & 0xff) as u8);
        r.push((x & 0xff) as u8);
        proof {
            assert(r@ =~= be_u64(x));
        }
        r
    }

    fn decode(b: &[u8]) -> (r: Result<u64, Error>) {
        if b.len() == 8 {
            let x: u64 = (b[0] as u64) << 56 | (b[1] as u64) << 48 | (b[2] as u64) << 40 | (
            b[3] as u64) << 32 | (b[4] as u64) << 24 | (b[5] as u64) << 16 | (b[6] as u64) << 8 | (
            b[7] as u64);
            Ok(x)
        } else {
            Err(Error::Decode)
        }
    }
}

impl KeyCodec for u64 {
    open spec fn key_lt(&self, other: &Self) -> bool {
        *self < *other
    }

    open spec fn width() -> nat {
        8
    }

    fn width_bytes() -> usize {
        8
    }

    proof fn lemma_enc_width(&self) {
    }

    proof fn lemma_key_connected(&self, other: &Self) {
    }

    proof fn lemma_enc_order(&self, other: &Self) {
        let x = *self;
        let y = *other;
        let s = self.enc();
        let t = other.enc();
        assert((x < y) <==> ((((x >> 56) & 0xff) as u8) < (((y >> 56) & 0xff) as u8) || ((((x
            >> 56) & 0xff) as u8) == (((y >> 56) & 0xff) as u8) && ((((x >> 48) & 0xff) as u8) < (((
        y >> 48) & 0xff) as u8) || ((((x >> 48) & 0xff) as u8) == (((y >> 48) & 0xff) as u8) && ((((
        x >> 40) & 0xff) as u8) < (((y >> 40) & 0xff) as u8) || ((((x >> 40) & 0xff) as u8) == (((y
            >> 40) & 0xff) as u8) && ((((x >> 32) & 0xff) as u8) < (((y >> 32) & 0xff) as u8) || ((((
        x >> 32) & 0xff) as u8) == (((y >> 32) & 0xff) as u8) && ((((x >> 24) & 0xff) as u8) < (((y
            >> 24) & 0xff) as u8) || ((((x >> 24) & 0xff) as u8) == (((y >> 24) & 0xff) as u8) && ((((
        x >> 16) & 0xff) as u8) < (((y >> 16) & 0xff) as u8) || ((((x >> 16) & 0xff) as u8) == (((y
            >> 16) & 0xff) as u8) && ((((x >> 8) & 0xff) as u8) < (((y >> 8) & 0xff) as u8) || ((((
        x >> 8) & 0xff) as u8) == (((y >> 8) & 0xff) as u8) && ((x & 0xff) as u8) < ((y
            & 0xff) as u8)))))))))))))))) by (bit_vector);
        lemma_lex_unfold_eq_len(s, t, 8);
    }
}

/// Unfolds the lexicographic comparison of two equal-length byte strings of
/// length at most 8 into a comparison chain over their elements.
proof fn lemma_lex_unfold_eq_len(s: Seq<u8>, t: Seq<u8>, n: nat)
    requires
        s.len() == n,
        t.len() == n,
        1 <= n <= 8,
    ensures
        lex_lt(s, t) <==> exists|i: int|
            0 <= i < n && s[i] < t[i] && (forall|j: int| 0 <= j < i ==> s[j] == t[j]),
    decreases n,
{
    if n == 1 {
        assert(s.subrange(1, 1).len() == 0 && t.subrange(1, 1).len() == 0);
        assert(!lex_lt(s.subrange(1, 1), t.subrange(1, 1)));
        assert(lex_lt(s, t) <==> s[0] < t[0]);
        if s[0] < t[0] {
            assert(0 <= 0 < n && s[0] < t[0] && (forall|j: int| 0 <= j < 0 ==> s[j] == t[j]));
        }
    } else {
        let s1 = s.subrange(1, n as int);
        let t1 = t.subrange(1, n as int);
        lemma_lex_unfold_eq_len(s1, t1, (n - 1) as nat);
        assert(forall|i: int| 1 <= i < n ==> #[trigger] s[i] == s1[i - 1]);
        assert(forall|i: int| 1 <= i < n ==> #[trigger] t[i] == t1[i - 1]);
        if lex_lt(s, t) {
            if s[0] < t[0] {
                assert(0 <= 0 < n && s[0] < t[0] && (forall|j: int| 0 <= j < 0 ==> s[j] == t[j]));
            } else {
                assert(s[0] == t[0] && lex_lt(s1, t1));
                let i = choose|i: int|
                    0 <= i < n - 1 && s1[i] < t1[i] && (forall|j: int|
                        0 <= j < i ==> s1[j] == t1[j]);
                assert(s[i + 1] < t[i + 1] && (forall|j: int| 0 <= j < i + 1 ==> s[j] == t[j]));
            }
        }
        if exists|i: int| 0 <= i < n && s[i] < t[i] && (forall|j: int| 0 <= j < i ==> s[j] == t[j]) {
            let i = choose|i: int|
                0 <= i < n && s[i] < t[i] && (forall|j: int| 0 <= j < i ==> s[j] == t[j]);
            if i == 0 {
                assert(lex_lt(s, t));
            } else {
                assert(s[0] == t[0]);
                assert(s1[i - 1] < t1[i - 1] && (forall|j: int| 0 <= j < i - 1 ==> s1[j] == t1[j]));
                assert(lex_lt(s1, t1));
                assert(lex_lt(s, t));
            }
        }
    }
}

impl PrimKey for u8 {
    proof fn lemma_width_small() {
    }
}

impl PrimKey for u16 {
    proof fn lemma_width_small() {
    }
}

impl PrimKey for u32 {
    proof fn lemma_width_small() {
    }
}

impl PrimKey for u64 {
    proof fn lemma_width_small() {
    }
}

// ---------------------------------------------------------------------------
// Composite keys: tuples encode as the concatenation of their fields'
// encodings, in declaration order.
// ---------------------------------------------------------------------------

impl<A: Codec> Codec for (A,) {
    open spec fn enc(&self) -> Seq<u8> {
        self.0.enc()
    }

    open spec fn dec(b: Seq<u8>) -> Option<(A,)> {
        match A::dec(b) {
            Some(a) => Some((a,)),
            None => None,
        }
    }

    proof fn lemma_enc_dec(&self) {
        self.0.lemma_enc_dec();
    }

    proof fn lemma_dec_enc(b: Seq<u8>) {
        A::lemma_dec_enc(b);
    }

    fn encode(&self) -> (r: Vec<u8>) {
        self.0.encode()
    }

    fn decode(b: &[u8]) -> (r: Result<(A,), Error>) {
        match A::decode(b) {
            Ok(a) => Ok((a,)),
            Err(_) => Err(Error::Decode),
        }
    }
}

impl<A: PrimKey, B: PrimKey> Codec for (A, B) {
    open spec fn enc(&self) -> Seq<u8> {
        self.0.enc() + self.1.enc()
    }

    open spec fn dec(b: Seq<u8>) -> Option<(A, B)> {
        if b.len() == A::width() + B::width() {
            match (A::dec(b.take(A::width() as int)), B::dec(b.skip(A::width() as int))) {
                (Some(a), Some(bb)) => Some((a, bb)),
                _ => None,
            }
        } else {
            None
        }
    }

    proof fn lemma_enc_dec(&self) {
        self.0.lemma_enc_width();
        self.1.lemma_enc_width();
        self.0.lemma_enc_dec();
        self.1.lemma_enc_dec();
        assert(self.enc().take(A::width() as int) =~= self.0.enc());
        assert(self.enc().skip(A::width() as int) =~= self.1.enc());
    }

    proof fn lemma_dec_enc(b: Seq<u8>) {
        A::lemma_dec_enc(b.take(A::width() as int));
        B::lemma_dec_enc(b.skip(A::width() as int));
        match Self::dec(b) {
            Some(v) => {
                assert(v.enc() =~= b);
            },
            None => {
            },
        }
    }

    fn encode(&self) -> (r: Vec<u8>) {
        let mut r = self.0.encode();
        let mut second = self.1.encode();
        r.append(&mut second);
        r
    }

    fn decode(b: &[u8]) -> (r: Result<(A, B), Error>) {
        let na = A::width_bytes();
        let nb = B::width_bytes();
        if b.len() < na || b.len() - na != nb {
            return Err(Error::Decode);
        }
        let first = vstd::slice::slice_subrange(b, 0, na);
        let second = vstd::slice::slice_subrange(b, na, b.len());
        proof {
            assert(first@ =~= b@.take(na as int));
            assert(second@ =~= b@.skip(na as int));
        }
        let a = match A::decode(first) {
            Ok(a) => a,
            Err(_) => {
                return Err(Error::Decode);
            },
        };
        let bb = match B::decode(second) {
            Ok(bb) => bb,
            Err(_) => {
                return Err(Error::Decode);
            },
        };
        Ok((a, bb))
    }
}

impl<A: PrimKey, B: PrimKey> KeyCodec for (A, B) {
    open spec fn key_lt(&self, other: &Self) -> bool {
        self.0.key_lt(&other.0) || (self.0 == other.0 && self.1.key_lt(&other.1))
    }

    open spec fn width() -> nat {
        A::width() + B::width()
    }

    fn width_bytes() -> (n: usize) {
        proof {
            A::lemma_width_small();
            B::lemma_width_small();
        }
        A::width_bytes() + B::width_bytes()
    }

    proof fn lemma_enc_width(&self) {
        self.0.lemma_enc_width();
        self.1.lemma_enc_width();
    }

    proof fn lemma_key_connected(&self, other: &Self) {
        self.0.lemma_key_connected(&other.0);
        self.1.lemma_key_connected(&other.1);
    }

    proof fn lemma_enc_order(&self, other: &Self) {
        let sa = self.0.enc();
        let sb = self.1.enc();
        let ta = other.0.enc();
        let tb = other.1.enc();
        self.0.lemma_enc_width();
        other.0.lemma_enc_width();
        self.0.lemma_enc_order(&other.0);
        other.0.lemma_enc_order(&self.0);
        self.1.lemma_enc_order(&other.1);
        self.0.lemma_key_connected(&other.0);
        if self.0.key_lt(&other.0) {
            crate::lex::lemma_lex_concat_lt(sa, ta, sb, tb);
        } else if other.0.key_lt(&self.0) {
            crate::lex::lemma_lex_concat_lt(ta, sa, tb, sb);
            crate::lex::lemma_lex_trichotomy(sa + sb, ta + tb);
            crate::lex::lemma_lex_trichotomy(ta, sa);
        } else {
            assert(self.0 == other.0);
            crate::lex::lemma_lex_prefix_cancel(sa, sb, tb);
        }
    }
}

impl<A: PrimKey, B: PrimKey, C: PrimKey> Codec for (A, B, C) {
    open spec fn enc(&self) -> Seq<u8> {
        self.0.enc() + self.1.enc() + self.2.enc()
    }

    open spec fn dec(b: Seq<u8>) -> Option<(A, B, C)> {
        if b.len() == A::width() + B::width() + C::width() {
            match (
                A::dec(b.take(A::width() as int)),
                B::dec(b.skip(A::width() as int).take(B::width() as int)),
                C::dec(b.skip(A::width() as int + B::width() as int)),
            ) {
                (Some(a), Some(bb), Some(c)) => Some((a, bb, c)),
                _ => None,
            }
        } else {
            None
        }
    }

    proof fn lemma_enc_dec(&self) {
        self.0.lemma_enc_width();
        self.1.lemma_enc_width();
        self.2.lemma_enc_width();
        self.0.lemma_enc_dec();
        self.1.lemma_enc_dec();
        self.2.lemma_enc_dec();
        assert(self.enc().take(A::width() as int) =~= self.0.enc());
        assert(self.enc().skip(A::width() as int).take(B::width() as int) =~= self.1.enc());
        assert(self.enc().skip(A::width() as int + B::width() as int) =~= self.2.enc());
    }

    proof fn lemma_dec_enc(b: Seq<u8>) {
        A::lemma_dec_enc(b.take(A::width() as int));
        B::lemma_dec_enc(b.skip(A::width() as int).take(B::width() as int));
        C::lemma_dec_enc(b.skip(A::width() as int + B::width() as int));
        match Self::dec(b) {
            Some(v) => {
                assert(v.enc() =~= b);
            },
            None => {
            },
        }
    }

    fn encode(&self) -> (r: Vec<u8>) {
        let mut r = self.0.encode();
        let mut second = self.1.encode();
        let mut third = self.2.encode();
        r.append(&mut second);
        r.append(&mut third);
        r
    }

    fn decode(b: &[u8]) -> (r: Result<(A, B, C), Error>) {
        let na = A::width_bytes();
        let nb = B::width_bytes();
        let nc = C::width_bytes();
        proof {
            A::lemma_width_small();
            B::lemma_width_small();
            C::lemma_width_small();
        }
        if b.len() < na || b.len() - na < nb || b.len() - na - nb != nc {
            return Err(Error::Decode);
        }
        let first = vstd::slice::slice_subrange(b, 0, na);
        let second = vstd::slice::slice_subrange(b, na, na + nb);
        let third = vstd::slice::slice_subrange(b, na + nb, b.len());
        proof {
            assert(first@ =~= b@.take(na as int));
            assert(second@ =~= b@.skip(na as int).take(nb as int));
            assert(third@ =~= b@.skip(na as int + nb as int));
        }
        let a = match A::decode(first) {
            Ok(a) => a,
            Err(_) => {
                return Err(Error::Decode);
            },
        };
        let bb = match B::decode(second) {
            Ok(bb) => bb,
            Err(_) => {
                return Err(Error::Decode);
            },
        };
        let c = match C::decode(third) {
            Ok(c) => c,
            Err(_) => {
                return Err(Error::Decode);
            },
        };
        Ok((a, bb, c))
    }
}

impl<A: PrimKey, B: PrimKey, C: PrimKey> KeyCodec for (A, B, C) {
    open spec fn key_lt(&self, other: &Self) -> bool {
        self.0.key_lt(&other.0) || (self.0 == other.0 && (self.1.key_lt(&other.1) || (self.1
            == other.1 && self.2.key_lt(&other.2))))
    }

    open spec fn width() -> nat {
        A::width() + B::width() + C::width()
    }

    fn width_bytes() -> (n: usize) {
        proof {
            A::lemma_width_small();
            B::lemma_width_small();
            C::lemma_width_small();
        }
        A::width_bytes() + B::width_bytes() + C::width_bytes()
    }

    proof fn lemma_enc_width(&self) {
        self.0.lemma_enc_width();
        self.1.lemma_enc_width();
        self.2.lemma_enc_width();
    }

    proof fn lemma_key_connected(&self, other: &Self) {
        self.0.lemma_key_connected(&other.0);
        self.1.lemma_key_connected(&other.1);
        self.2.lemma_key_connected(&other.2);
    }

    proof fn lemma_enc_order(&self, other: &Self) {
        let sa = self.0.enc();
        let sb = self.1.enc();
        let sc = self.2.enc();
        let ta = other.0.enc();
        let tb = other.1.enc();
        let tc = other.2.enc();
        self.0.lemma_enc_width();
        other.0.lemma_enc_width();
        self.1.lemma_enc_width();
        other.1.lemma_enc_width();
        self.0.lemma_enc_order(&other.0);
        other.0.lemma_enc_order(&self.0);
        self.1.lemma_enc_order(&other.1);
        other.1.lemma_enc_order(&self.1);
        self.2.lemma_enc_order(&other.2);
        self.0.lemma_key_connected(&other.0);
        self.1.lemma_key_connected(&other.1);
        assert(sa + sb + sc =~= sa + (sb + sc));
        assert(ta + tb + tc =~= ta + (tb + tc));
        if self.0.key_lt(&other.0) {
            crate::lex::lemma_lex_concat_lt(sa, ta, sb + sc, tb + tc);
        } else if other.0.key_lt(&self.0) {
            crate::lex::lemma_lex_concat_lt(ta, sa, tb + tc, sb + sc);
            crate::lex::lemma_lex_trichotomy(sa + (sb + sc), ta + (tb + tc));
            crate::lex::lemma_lex_trichotomy(ta, sa);
        } else {
            assert(self.0 == other.0);
            crate::lex::lemma_lex_prefix_cancel(sa, sb + sc, tb + tc);
            if self.1.key_lt(&other.1) {
                crate::lex::lemma_lex_concat_lt(sb, tb, sc, tc);
            } else if other.1.key_lt(&self.1) {
                crate::lex::lemma_lex_concat_lt(tb, sb, tc, sc);
                crate::lex::lemma_lex_trichotomy(sb + sc, tb + tc);
                crate::lex::lemma_lex_trichotomy(tb, sb);
            } else {
                assert(self.1 == other.1);
                crate::lex::lemma_lex_prefix_cancel(sb, sc, tc);
            }
        }
    }
}


/// Iteration follows the keys' own order: a key whose encoding comes no
/// later in byte-lexicographic order comes no later in the key order, so a
/// walk of ascending encodings is a walk of ascending keys.
pub proof fn lemma_byte_order_is_key_order<K: KeyCodec>(a: &K, b: &K)
    requires
        lex_le(a.enc(), b.enc()),
    ensures
        !b.key_lt(a),
{
    a.lemma_enc_order(b);
    b.lemma_enc_order(a);
    crate::lex::lemma_lex_trichotomy(a.enc(), b.enc());
}

/// Composite keys iterate in the lexicographic order of their field tuple:
/// the byte order of a concatenated key encoding compares the fields in
/// declaration order, independent of how the records were inserted.
pub proof fn lemma_composite_key_order<A: PrimKey, B: PrimKey, C: PrimKey>(
    x: (A, B, C),
    y: (A, B, C),
)
    ensures
        lex_lt(x.enc(), y.enc()) <==> (x.0.key_lt(&y.0) || (x.0 == y.0 && (x.1.key_lt(&y.1) || (
        x.1 == y.1 && x.2.key_lt(&y.2))))),
{
    x.lemma_enc_order(&y);
}

// ---------------------------------------------------------------------------
// Optional values: a presence byte, then the value's encoding.
// ---------------------------------------------------------------------------

impl<T: Codec> Codec for Option<T> {
    open spec fn enc(&self) -> Seq<u8> {
        match self {
            None => seq![0u8],
            Some(v) => seq![1u8] + v.enc(),
        }
    }

    open spec fn dec(b: Seq<u8>) -> Option<Option<T>> {
        if b.len() == 0 {
            None
        } else if b[0] == 0 {
            if b.len() == 1 {
                Some(None)
            } else {
                None
            }
        } else if b[0] == 1 {
            match T::dec(b.skip(1)) {
                Some(v) => Some(Some(v)),
                None => None,
            }
        } else {
            None
        }
    }

    proof fn lemma_enc_dec(&self) {
        match self {
            None => {
            },
            Some(v) => {
                v.lemma_enc_dec();
                assert(self.enc().skip(1) =~= v.enc());
            },
        }
    }

    proof fn lemma_dec_enc(b: Seq<u8>) {
        if b.len() > 0 && b[0] == 1 {
            T::lemma_dec_enc(b.skip(1));
            match Self::dec(b) {
                Some(v) => {
                    assert(v.enc() =~= b);
                },
                None => {
                },
            }
        } else if b.len() == 1 && b[0] == 0 {
            assert((seq![0u8]) =~= b);
        }
    }

    fn encode(&self) -> (r: Vec<u8>) {
        match self {
            None => {
                let mut r: Vec<u8> = Vec::new();
                r.push(0u8);
                proof {
                    assert(r@ =~= self.enc());
                }
                r
            },
            Some(v) => {
                let mut r: Vec<u8> = Vec::new();
                r.push(1u8);
                let mut rest = v.encode();
                r.append(&mut rest);
                proof {
                    assert(r@ =~= self.enc());
                }
                r
            },
        }
    }

    fn decode(b: &[u8]) -> (r: Result<Option<T>, Error>) {
        if b.len() == 0 {
            return Err(Error::Decode);
        }
        let tag = b[0];
        if tag == 0 {
            if b.len() == 1 {
                Ok(None)
            } else {
                Err(Error::Decode)
            }
        } else if tag == 1 {
            let rest = vstd::slice::slice_subrange(b, 1, b.len());
            proof {
                assert(rest@ =~= b@.skip(1));
            }
            match T::decode(rest) {
                Ok(v) => Ok(Some(v)),
                Err(_) => Err(Error::Decode),
            }
        } else {
            Err(Error::Decode)
        }
    }
}

} // verus!
