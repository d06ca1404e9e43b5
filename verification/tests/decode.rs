use fibonacci_codec::{
    fib_decode_u16, fib_decode_u32, fib_decode_u64, fib_decode_u8, DecodeError, Encode, EncodeOne,
};

fn a_vec(v: Vec<u64>) -> Vec<u64> {
    v.into_iter().filter(|n| *n > 0).collect()
}

#[test]
fn test_roundtrip_u8() {
    let input: Vec<u8> = vec![2, 14, 65];
    let encoded = input.clone().fib_encode().unwrap();
    let mut iter = fib_decode_u8(encoded);
    let mut decoded: Vec<u8> = Vec::new();
    while let Some(x) = iter.next() {
        decoded.push(x.unwrap());
    }
    assert_eq!(input, decoded);
}

#[test]
fn test_roundtrip_u16() {
    let input: Vec<u16> = vec![2, 14, 65];
    let encoded = input.clone().fib_encode().unwrap();
    let mut iter = fib_decode_u16(encoded);
    let mut decoded: Vec<u16> = Vec::new();
    while let Some(x) = iter.next() {
        decoded.push(x.unwrap());
    }
    assert_eq!(input, decoded);
}

#[test]
fn test_roundtrip_u32() {
    let input: Vec<u32> = vec![2, 14, 65];
    let encoded = input.clone().fib_encode().unwrap();
    let mut iter = fib_decode_u32(encoded);
    let mut decoded: Vec<u32> = Vec::new();
    while let Some(x) = iter.next() {
        decoded.push(x.unwrap());
    }
    assert_eq!(input, decoded);
}

#[test]
fn test_roundtrip_u64() {
    let input: Vec<u64> = vec![2, 14, 65];
    let encoded = input.clone().fib_encode().unwrap();
    let mut iter = fib_decode_u64(encoded);
    let mut decoded: Vec<u64> = Vec::new();
    while let Some(x) = iter.next() {
        decoded.push(x.unwrap());
    }
    assert_eq!(input, decoded);
}

#[test]
fn test_overflow_from_fib_elt() {
    let input = a_vec(vec![23894089128374]);
    let encoded = input.clone().fib_encode().unwrap();
    let mut iter = fib_decode_u8(encoded);
    let mut decoded: Vec<Result<u8, DecodeError>> = Vec::new();
    while let Some(x) = iter.next() {
        decoded.push(x);
    }
    assert_eq!(
        Err(DecodeError::FibonacciElementOverflow { bit_pos: 12 }),
        decoded[0]
    );
}

#[test]
fn test_overflow_from_addition() {
    let input = a_vec(vec![256]);
    let encoded = input.fib_encode().unwrap();
    let mut iter = fib_decode_u8(encoded);
    let mut decoded: Vec<Result<u8, DecodeError>> = Vec::new();
    while let Some(x) = iter.next() {
        decoded.push(x);
    }
    assert_eq!(
        Err(DecodeError::ConstructionOverflow { bit_pos: 11 }),
        decoded[0]
    );
}

#[test]
fn test_downcast_recovers_after_error() {
    // a value beyond u8 errors, but the value after it still comes out
    let input: Vec<u64> = vec![300, 7];
    let encoded = input.fib_encode().unwrap();
    let mut iter = fib_decode_u8(encoded);
    let mut decoded: Vec<Result<u8, DecodeError>> = Vec::new();
    while let Some(x) = iter.next() {
        decoded.push(x);
    }
    assert_eq!(decoded.len(), 2);
    assert!(decoded[0].is_err());
    assert_eq!(decoded[1], Ok(7u8));
}

#[test]
fn test_single_bit_corruption_is_contained() {
    // flip one bit inside the second value's code word: the value before it
    // and the values after the next word still decode as before
    let input: Vec<u8> = vec![2, 14, 65, 7];
    let mut encoded = input.fib_encode().unwrap();
    encoded.set(4, true);
    let mut iter = fib_decode_u8(encoded);
    let mut decoded: Vec<Result<u8, DecodeError>> = Vec::new();
    while let Some(x) = iter.next() {
        decoded.push(x);
    }
    assert_eq!(
        decoded,
        vec![Ok(2u8), Ok(1u8), Ok(5u8), Ok(65u8), Ok(7u8)]
    );
}

#[test]
fn test_corrupted_terminator_fuses_two_values() {
    // clearing a terminator bit fuses the word with the one after it; the
    // stream still ends cleanly at the next terminator
    let input: Vec<u8> = vec![2, 3];
    let mut encoded = input.fib_encode().unwrap();
    encoded.set(2, false);
    let mut iter = fib_decode_u8(encoded);
    let mut decoded: Vec<Result<u8, DecodeError>> = Vec::new();
    while let Some(x) = iter.next() {
        decoded.push(x);
    }
    assert_eq!(decoded, vec![Ok(15u8)]);
}

#[test]
fn test_corruption_beside_a_one_travels_one_word_further() {
    // the two-bit code word of the value one can fuse with a damaged
    // neighbour, so one flipped bit may reshape the value after it too
    let input: Vec<u8> = vec![2, 1, 2];
    let mut encoded = input.fib_encode().unwrap();
    encoded.set(0, true);
    let mut iter = fib_decode_u8(encoded);
    let mut decoded: Vec<Result<u8, DecodeError>> = Vec::new();
    while let Some(x) = iter.next() {
        decoded.push(x);
    }
    assert_eq!(decoded, vec![Ok(1u8), Ok(1u8), Ok(4u8)]);
}

#[test]
fn test_empty_stream_decodes_to_nothing() {
    let encoded = bit_vec::BitVec::new();
    let mut iter = fib_decode_u32(encoded);
    assert!(iter.next().is_none());
}

#[test]
fn test_trailing_padding_is_not_a_value() {
    // zero padding after the last terminator must not turn into a value
    let mut encoded = 2u8.fib_encode().unwrap();
    encoded.grow(5, false);
    let mut iter = fib_decode_u8(encoded);
    assert_eq!(iter.next(), Some(Ok(2u8)));
    assert_eq!(iter.next(), None);
}
