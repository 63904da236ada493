use bit_vec::BitVec;
use data_compression::bitvec_util::{
    append_bit_vec, deserialize_bit_vec, pop_front_bit_vec, serialize_bit_vec,
};
use data_compression::error::DecodeError;

fn bits_of(values: &[bool]) -> BitVec {
    let mut v = BitVec::new();
    for &b in values {
        v.push(b);
    }
    v
}

fn values_of(v: &BitVec) -> Vec<bool> {
    v.iter().collect()
}

#[test]
fn append_joins_in_order() {
    let a = bits_of(&[true, false]);
    let b = bits_of(&[false, true, true]);
    let joined = append_bit_vec(a, &b);
    assert_eq!(values_of(&joined), vec![true, false, false, true, true]);
    assert_eq!(values_of(&b), vec![false, true, true]);
}

#[test]
fn append_of_empty_sequences() {
    let joined = append_bit_vec(BitVec::new(), &BitVec::new());
    assert_eq!(joined.len(), 0);
    let joined = append_bit_vec(bits_of(&[true]), &BitVec::new());
    assert_eq!(values_of(&joined), vec![true]);
    let joined = append_bit_vec(BitVec::new(), &bits_of(&[false]));
    assert_eq!(values_of(&joined), vec![false]);
}

#[test]
fn serialize_empty_is_a_single_zero_byte() {
    assert_eq!(serialize_bit_vec(&BitVec::new()), vec![0]);
}

#[test]
fn serialize_whole_bytes_has_no_padding() {
    let v = bits_of(&[true, false, true, false, false, false, false, true]);
    assert_eq!(serialize_bit_vec(&v), vec![0b1010_0001, 0]);
    let v = BitVec::from_bytes(&[0x12, 0x34]);
    assert_eq!(serialize_bit_vec(&v), vec![0x12, 0x34, 0]);
}

#[test]
fn serialize_counts_the_padding_bits() {
    let v = bits_of(&[true, false, true]);
    assert_eq!(serialize_bit_vec(&v), vec![0b1010_0000, 5]);
    let v = bits_of(&[true, true, true, true, true, true, true, true, true]);
    assert_eq!(serialize_bit_vec(&v), vec![0xff, 0x80, 7]);
    let v = bits_of(&[false, false, false, false, false, false, true]);
    assert_eq!(serialize_bit_vec(&v), vec![0b0000_0010, 1]);
}

#[test]
fn deserialize_drops_the_padding_bits() {
    let v = deserialize_bit_vec(&[0b1010_0000, 5]).unwrap();
    assert_eq!(values_of(&v), vec![true, false, true]);
    let v = deserialize_bit_vec(&[0x12, 0x34, 0]).unwrap();
    assert_eq!(v, BitVec::from_bytes(&[0x12, 0x34]));
    let v = deserialize_bit_vec(&[0]).unwrap();
    assert_eq!(v.len(), 0);
}

#[test]
fn deserialize_takes_a_large_padding_count_literally() {
    let v = deserialize_bit_vec(&[0xff, 0xff, 12]).unwrap();
    assert_eq!(values_of(&v), vec![true, true, true, true]);
    let v = deserialize_bit_vec(&[0xff, 8]).unwrap();
    assert_eq!(v.len(), 0);
}

#[test]
fn deserialize_rejects_empty_input() {
    assert_eq!(deserialize_bit_vec(&[]).err(), Some(DecodeError::UnexpectedEndOfInput));
}

#[test]
fn deserialize_rejects_more_padding_than_bits() {
    assert_eq!(deserialize_bit_vec(&[1]).err(), Some(DecodeError::UnexpectedEndOfInput));
    assert_eq!(deserialize_bit_vec(&[0xff, 9]).err(), Some(DecodeError::UnexpectedEndOfInput));
}

#[test]
fn wire_format_round_trips_every_short_length() {
    for n in 0..40usize {
        let mut v = BitVec::new();
        for i in 0..n {
            v.push((i * 7 + n) % 3 == 0);
        }
        let bytes = serialize_bit_vec(&v);
        assert_eq!(bytes.len(), (n + 7) / 8 + 1);
        assert_eq!(bytes[bytes.len() - 1] as usize, (8 - n % 8) % 8);
        assert_eq!(deserialize_bit_vec(&bytes).unwrap(), v);
    }
}

#[test]
fn pop_front_removes_the_first_bit() {
    let v = bits_of(&[true, false, false, true]);
    assert_eq!(values_of(&pop_front_bit_vec(v)), vec![false, false, true]);
    let v = bits_of(&[false]);
    assert_eq!(pop_front_bit_vec(v).len(), 0);
}

#[test]
fn pop_front_of_empty_is_empty() {
    assert_eq!(pop_front_bit_vec(BitVec::new()).len(), 0);
}

#[test]
fn error_messages_differ() {
    let all = [
        DecodeError::UnexpectedEndOfInput,
        DecodeError::IncompleteSymbol,
        DecodeError::InvalidDictionaryReference,
        DecodeError::MalformedTokenStream,
    ];
    for (i, a) in all.iter().enumerate() {
        assert!(!a.message().is_empty());
        for (j, b) in all.iter().enumerate() {
            assert_eq!(i == j, a.message() == b.message());
            assert_eq!(i == j, a == b);
        }
    }
    assert_eq!(DecodeError::MalformedTokenStream.message(), "malformed token stream");
}
