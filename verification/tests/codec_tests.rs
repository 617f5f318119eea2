use mstate::codec::Codec;
use mstate::entry_map::Entry;
use mstate::error::Error;
use mstate::records::{MyNamedStruct, Sample};

#[test]
fn encode_decode() {
    let value = Sample { a: 5, b: Some(6) };
    let bytes = value.encode();
    assert_eq!(bytes.as_slice(), &[5, 1, 6]);
    let decoded_value = Sample::decode(bytes.as_slice()).unwrap();
    assert_eq!(decoded_value, value);
}

#[test]
fn derive_entry_named_struct_into_entry() {
    let test = MyNamedStruct {
        my_key_1: 12,
        my_key_2: 13,
        my_val: 14,
    };

    assert_eq!(test.into_entry(), ((12, 13), (14,)));
}

#[test]
fn derive_entry_named_struct_from_entry() {
    let test = MyNamedStruct {
        my_key_1: 12,
        my_key_2: 13,
        my_val: 14,
    };

    assert_eq!(MyNamedStruct::from_entry(((12, 13), (14,))), test);
}

#[test]
fn integers_encode_big_endian() {
    assert_eq!(5u8.encode(), vec![5]);
    assert_eq!(0x0102u16.encode(), vec![1, 2]);
    assert_eq!(1234u64.encode(), vec![0, 0, 0, 0, 0, 0, 4, 210]);
    assert_eq!(u64::MAX.encode(), vec![255; 8]);
}

#[test]
fn integers_round_trip() {
    assert_eq!(u16::decode(&0xbeefu16.encode()).unwrap(), 0xbeef);
    assert_eq!(u32::decode(&7u32.encode()).unwrap(), 7);
    assert_eq!(u64::decode(&u64::MAX.encode()).unwrap(), u64::MAX);
}

#[test]
fn wrong_length_is_a_decode_error() {
    assert_eq!(u32::decode(&[1, 2, 3]), Err(Error::Decode));
    assert_eq!(u64::decode(&[]), Err(Error::Decode));
    assert_eq!(Option::<u8>::decode(&[2, 9]), Err(Error::Decode));
    assert_eq!(Sample::decode(&[]), Err(Error::Decode));
    assert_eq!(Sample::decode(&[5, 1]), Err(Error::Decode));
}

#[test]
fn options_are_tagged() {
    assert_eq!(Option::<u8>::None.encode(), vec![0]);
    assert_eq!(Some(6u8).encode(), vec![1, 6]);
    assert_eq!(Option::<u8>::decode(&[0]).unwrap(), None);
    assert_eq!(Option::<u8>::decode(&[1, 6]).unwrap(), Some(6));
}

#[test]
fn composite_keys_concatenate_fields() {
    let key: (u32, u8, u16) = (0x01020304, 5, 0x0607);
    assert_eq!(key.encode(), vec![1, 2, 3, 4, 5, 6, 7]);
    let back = <(u32, u8, u16)>::decode(&[1, 2, 3, 4, 5, 6, 7]).unwrap();
    assert_eq!(back, key);
}
