use bit_vec::BitVec;
use fibonacci_codec::{ElementEncodeError, Encode, EncodeError, EncodeOne};
use std::num::{NonZeroU16, NonZeroU32, NonZeroU64, NonZeroU8};

fn to_bits(slice: BitVec) -> Vec<u8> {
    slice.iter().map(|b| if b { 1 } else { 0 } as u8).collect()
}

#[test]
fn test_factor_wikipedia() {
    // Some of the examples on https://en.wikipedia.org/wiki/Fibonacci_coding:
    assert_eq!(
        vec![0, 1, 1],
        to_bits(
            NonZeroU8::new(2)
                .expect("must be nonzero")
                .get()
                .fib_encode()
                .unwrap()
        )
    );
    assert_eq!(
        vec![1, 0, 1, 1],
        to_bits(
            NonZeroU8::new(4)
                .expect("must be nonzero")
                .get()
                .fib_encode()
                .unwrap()
        )
    );
    assert_eq!(
        vec![0, 0, 1, 1],
        to_bits(
            NonZeroU8::new(3)
                .expect("must be nonzero")
                .get()
                .fib_encode()
                .unwrap()
        )
    );
    assert_eq!(
        vec![0, 0, 0, 0, 0, 1, 1],
        to_bits(
            NonZeroU8::new(13)
                .expect("must be nonzero")
                .get()
                .fib_encode()
                .unwrap()
        )
    );
    assert_eq!(
        vec![1, 0, 0, 0, 0, 1, 1],
        to_bits(
            NonZeroU8::new(14)
                .expect("must be nonzero")
                .get()
                .fib_encode()
                .unwrap()
        )
    );
    assert_eq!(
        vec![0, 1, 0, 0, 1, 0, 0, 0, 1, 1],
        to_bits(
            NonZeroU8::new(65)
                .expect("must be nonzero")
                .get()
                .fib_encode()
                .unwrap()
        )
    );
    assert_eq!(
        vec![0, 0, 0, 0, 1, 0, 0, 1, 0, 0, 0, 0, 1, 0, 0, 0, 1, 1],
        to_bits(
            NonZeroU16::new(3003)
                .expect("must be nonzero")
                .get()
                .fib_encode()
                .unwrap()
        )
    );
}

fn check_slice_u8(numbers: Vec<u8>) -> Vec<u8> {
    let numbers: Vec<u8> = numbers
        .into_iter()
        .map(|n| NonZeroU8::new(n).expect("Must be non-zero").get())
        .collect();
    to_bits(numbers.fib_encode().unwrap())
}

fn check_slice_u16(numbers: Vec<u16>) -> Vec<u8> {
    let numbers: Vec<u16> = numbers
        .into_iter()
        .map(|n| NonZeroU16::new(n).expect("must be nonzero").get())
        .collect();
    to_bits(numbers.fib_encode().unwrap())
}

fn check_slice_u32(numbers: Vec<u32>) -> Vec<u8> {
    let numbers: Vec<u32> = numbers
        .into_iter()
        .map(|n| NonZeroU32::new(n).expect("must be nonzero").get())
        .collect();
    to_bits(numbers.fib_encode().unwrap())
}

fn check_slice_u64(numbers: Vec<u64>) -> Vec<u8> {
    let numbers: Vec<u64> = numbers
        .into_iter()
        .map(|n| NonZeroU64::new(n).expect("must be nonzero").get())
        .collect();
    to_bits(numbers.fib_encode().unwrap())
}

#[test]
fn test_slices_singles() {
    assert_eq!(vec![0, 1, 1], check_slice_u8(vec![2]));
    assert_eq!(vec![0, 1, 1], check_slice_u16(vec![2]));
    assert_eq!(vec![0, 1, 1], check_slice_u32(vec![2]));
    assert_eq!(vec![0, 1, 1], check_slice_u64(vec![2]));
}

#[test]
fn test_slices_multi() {
    assert_eq!(vec![1, 1, 1, 1], check_slice_u8(vec![1, 1]));
    assert_eq!(
        vec![
            0, 1, 1, // 1
            1, 0, 0, 0, 0, 1, 1, // 14
            0, 1, 0, 0, 1, 0, 0, 0, 1, 1, // 65
        ],
        check_slice_u8(vec![2, 14, 65])
    );
    assert_eq!(vec![1, 1, 1, 1], check_slice_u16(vec![1, 1]));
    assert_eq!(
        vec![
            0, 1, 1, // 1
            1, 0, 0, 0, 0, 1, 1, // 14
            0, 1, 0, 0, 1, 0, 0, 0, 1, 1, // 65
        ],
        check_slice_u16(vec![2, 14, 65])
    );
    assert_eq!(vec![1, 1, 1, 1], check_slice_u32(vec![1, 1]));
    assert_eq!(
        vec![
            0, 1, 1, // 1
            1, 0, 0, 0, 0, 1, 1, // 14
            0, 1, 0, 0, 1, 0, 0, 0, 1, 1, // 65
        ],
        check_slice_u32(vec![2, 14, 65])
    );
    assert_eq!(vec![1, 1, 1, 1], check_slice_u64(vec![1, 1]));
    assert_eq!(
        vec![
            0, 1, 1, // 1
            1, 0, 0, 0, 0, 1, 1, // 14
            0, 1, 0, 0, 1, 0, 0, 0, 1, 1, // 65
        ],
        check_slice_u64(vec![2, 14, 65])
    );
}

#[test]
fn test_packed_bytes() {
    // The two-byte words 1, 50 and 3003 pack into four bytes.
    let numbers: Vec<u16> = vec![1, 50, 3003];
    let encoded = numbers.fib_encode().unwrap();
    assert_eq!(
        encoded.to_bytes(),
        [0b11001001, 0b01100001, 0b00100001, 0b00011000]
    );
}

#[test]
fn test_zero_rejected_one_value() {
    assert_eq!(0u8.fib_encode(), Err(EncodeError::ValueTooSmall(0u8)));
    assert_eq!(0u16.fib_encode(), Err(EncodeError::ValueTooSmall(0u16)));
    assert_eq!(0u32.fib_encode(), Err(EncodeError::ValueTooSmall(0u32)));
    assert_eq!(0u64.fib_encode(), Err(EncodeError::ValueTooSmall(0u64)));
}

#[test]
fn test_zero_rejected_in_sequence_keeps_prior_bits() {
    let mut vec = BitVec::new();
    let numbers: Vec<u8> = vec![2, 0, 3];
    let err = numbers.fib_encode_mut(&mut vec).unwrap_err();
    assert_eq!(
        err,
        ElementEncodeError {
            index: 1,
            error: EncodeError::ValueTooSmall(0u8)
        }
    );
    // the code word of the element before the zero stays in the buffer
    assert_eq!(to_bits(vec), vec![0, 1, 1]);
}

#[test]
fn test_encode_mut_appends_after_existing_bits() {
    let mut vec = BitVec::new();
    2u8.fib_encode_mut(&mut vec).unwrap();
    3u8.fib_encode_mut(&mut vec).unwrap();
    assert_eq!(to_bits(vec), vec![0, 1, 1, 0, 0, 1, 1]);
}

#[test]
fn test_largest_values_encode() {
    // the largest value of each width still fits its table
    assert_eq!(to_bits(255u8.fib_encode().unwrap()).len(), 13);
    assert!(u16::MAX.fib_encode().is_ok());
    assert!(u32::MAX.fib_encode().is_ok());
    assert!(u64::MAX.fib_encode().is_ok());
}
