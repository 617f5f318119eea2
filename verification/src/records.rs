//! Worked examples of the codec and entry capabilities.
//!
//! These small record types show what an application writes to store its
//! own data in the typed collections: a canonical [`Codec`] for a struct of
//! mixed fields, and [`Entry`] impls for records with single, tuple-struct
//! and composite (multi-field) keys. The test suite exercises the
//! collections through them.

use vstd::prelude::*;

use crate::codec::Codec;
use crate::entry_map::Entry;
use crate::error::Error;

verus! {

/// A record with one byte and one optional byte, encoded as the
/// concatenation of its fields' encodings.
#[derive(Debug, PartialEq, Eq)]
pub struct Sample {
    pub a: u8,
    pub b: Option<u8>,
}

impl Codec for Sample {
    open spec fn enc(&self) -> Seq<u8> {
        self.a.enc() + self.b.enc()
    }

    open spec fn dec(bytes: Seq<u8>) -> Option<Sample> {
        if bytes.len() == 0 {
            None
        } else {
            match <Option<u8> as Codec>::dec(bytes.skip(1)) {
                Some(b) => Some(Sample { a: bytes[0], b }),
                None => None,
            }
        }
    }

    proof fn lemma_enc_dec(&self) {
        self.b.lemma_enc_dec();
        assert(self.enc().skip(1) =~= self.b.enc());
        assert(self.enc()[0] == self.a);
    }

    proof fn lemma_dec_enc(bytes: Seq<u8>) {
        if bytes.len() > 0 {
            <Option<u8> as Codec>::lemma_dec_enc(bytes.skip(1));
            match Self::dec(bytes) {
                Some(v) => {
                    assert(v.enc() =~= bytes);
                },
                None => {
                },
            }
        }
    }

    fn encode(&self) -> (r: Vec<u8>) {
        let mut r = self.a.encode();
        let mut rest = self.b.encode();
        r.append(&mut rest);
        r
    }

    fn decode(bytes: &[u8]) -> (r: Result<Sample, Error>) {
        if bytes.len() == 0 {
            return Err(Error::Decode);
        }
        let a = bytes[0];
        let rest = vstd::slice::slice_subrange(bytes, 1, bytes.len());
        proof {
            assert(rest@ =~= bytes@.skip(1));
        }
        match Option::<u8>::decode(rest) {
            Ok(b) => Ok(Sample { a, b }),
            Err(_) => Err(Error::Decode),
        }
    }
}

/// A record with a single-field key.
#[derive(Debug, PartialEq, Eq)]
pub struct MapEntry {
    pub key: u32,
    pub value: u32,
}

impl Entry for MapEntry {
    type Key = u32;

    type Value = u32;

    open spec fn key_spec(&self) -> u32 {
        self.key
    }

    open spec fn value_spec(&self) -> u32 {
        self.value
    }

    open spec fn of_entry(kv: (u32, u32)) -> MapEntry {
        MapEntry { key: kv.0, value: kv.1 }
    }

    proof fn lemma_entry_round_trip(&self) {
    }

    proof fn lemma_of_entry_round_trip(kv: (u32, u32)) {
    }

    fn into_entry(self) -> (r: (u32, u32)) {
        (self.key, self.value)
    }

    fn from_entry(entry: (u32, u32)) -> (r: MapEntry) {
        MapEntry { key: entry.0, value: entry.1 }
    }
}

/// A tuple-struct record whose first field is the key.
#[derive(Debug, PartialEq, Eq)]
pub struct TupleMapEntry(pub u32, pub u32);

impl Entry for TupleMapEntry {
    type Key = u32;

    type Value = u32;

    open spec fn key_spec(&self) -> u32 {
        self.0
    }

    open spec fn value_spec(&self) -> u32 {
        self.1
    }

    open spec fn of_entry(kv: (u32, u32)) -> TupleMapEntry {
        TupleMapEntry(kv.0, kv.1)
    }

    proof fn lemma_entry_round_trip(&self) {
    }

    proof fn lemma_of_entry_round_trip(kv: (u32, u32)) {
    }

    fn into_entry(self) -> (r: (u32, u32)) {
        (self.0, self.1)
    }

    fn from_entry(entry: (u32, u32)) -> (r: TupleMapEntry) {
        TupleMapEntry(entry.0, entry.1)
    }
}

/// A record with a composite key of three fields; the key encodes as the
/// concatenation of the fields' encodings, in declaration order.
#[derive(Debug, PartialEq, Eq)]
pub struct MultiKeyMapEntry {
    pub key_1: u32,
    pub key_2: u8,
    pub key_3: u16,
    pub value: u32,
}

impl Entry for MultiKeyMapEntry {
    type Key = (u32, u8, u16);

    type Value = u32;

    open spec fn key_spec(&self) -> (u32, u8, u16) {
        (self.key_1, self.key_2, self.key_3)
    }

    open spec fn value_spec(&self) -> u32 {
        self.value
    }

    open spec fn of_entry(kv: ((u32, u8, u16), u32)) -> MultiKeyMapEntry {
        MultiKeyMapEntry { key_1: kv.0.0, key_2: kv.0.1, key_3: kv.0.2, value: kv.1 }
    }

    proof fn lemma_entry_round_trip(&self) {
    }

    proof fn lemma_of_entry_round_trip(kv: ((u32, u8, u16), u32)) {
    }

    fn into_entry(self) -> (r: ((u32, u8, u16), u32)) {
        ((self.key_1, self.key_2, self.key_3), self.value)
    }

    fn from_entry(entry: ((u32, u8, u16), u32)) -> (r: MultiKeyMapEntry) {
        MultiKeyMapEntry {
            key_1: entry.0.0,
            key_2: entry.0.1,
            key_3: entry.0.2,
            value: entry.1,
        }
    }
}

/// A record with a two-field composite key and a one-field value tuple.
#[derive(Debug, PartialEq, Eq)]
pub struct MyNamedStruct {
    pub my_key_1: u32,
    pub my_key_2: u16,
    pub my_val: u8,
}

impl Entry for MyNamedStruct {
    type Key = (u32, u16);

    type Value = (u8,);

    open spec fn key_spec(&self) -> (u32, u16) {
        (self.my_key_1, self.my_key_2)
    }

    open spec fn value_spec(&self) -> (u8,) {
        (self.my_val,)
    }

    open spec fn of_entry(kv: ((u32, u16), (u8,))) -> MyNamedStruct {
        MyNamedStruct { my_key_1: kv.0.0, my_key_2: kv.0.1, my_val: kv.1.0 }
    }

    proof fn lemma_entry_round_trip(&self) {
    }

    proof fn lemma_of_entry_round_trip(kv: ((u32, u16), (u8,))) {
    }

    fn into_entry(self) -> (r: ((u32, u16), (u8,))) {
        ((self.my_key_1, self.my_key_2), (self.my_val,))
    }

    fn from_entry(entry: ((u32, u16), (u8,))) -> (r: MyNamedStruct) {
        MyNamedStruct {
            my_key_1: entry.0.0,
            my_key_2: entry.0.1,
            my_val: entry.1.0,
        }
    }
}

} // verus!
