use fibonacci_codec::{
    consume_overflow, generate, is_terminator, multiplier, write_decode_wrapper, write_out,
};

#[test]
fn test_generate_u8_table() {
    let t = generate(255);
    assert_eq!(
        t,
        vec![1, 2, 3, 5, 8, 13, 21, 34, 55, 89, 144, 233]
    );
}

#[test]
fn test_generate_table_lengths() {
    assert_eq!(generate(255).len(), 12);
    assert_eq!(generate(65535).len(), 23);
    assert_eq!(generate(u32::MAX as u64).len(), 46);
    assert_eq!(generate(u64::MAX).len(), 92);
}

#[test]
fn test_write_out_line() {
    let t = generate(7);
    assert_eq!(t, vec![1, 2, 3, 5]);
    let line = write_out("u8", &t);
    assert_eq!(
        line,
        "impl_fib_encode_for_integral_type!(u8, \"u8\", DecodeIter, fib_decode_u8, [1, 2, 3, 5]);\n"
    );
}

#[test]
fn test_write_decode_wrapper_module() {
    let names: Vec<String> = vec!["u8".to_string(), "u16".to_string()];
    let text = write_decode_wrapper(&names);
    assert_eq!(
        text,
        "\npub(crate) mod funcs {\n    impl_decoder!(u8, \"u8\", fib_decode_u8);\n    impl_decoder!(u16, \"u16\", fib_decode_u16);\n}\n"
    );
}

#[test]
fn test_helpers() {
    assert_eq!(multiplier(true), 1);
    assert_eq!(multiplier(false), 0);
    assert!(is_terminator(true, true));
    assert!(!is_terminator(true, false));
    assert!(!is_terminator(false, true));
    // skipping an overflowed value stops right after the next terminator
    let bits: Vec<bool> = vec![false, true, false, true, true, false, true];
    let mut pos: usize = 0;
    consume_overflow(false, &bits, &mut pos);
    assert_eq!(pos, 5);
    // without a terminator left, everything is consumed
    let mut pos2: usize = 5;
    consume_overflow(false, &bits, &mut pos2);
    assert_eq!(pos2, 7);
}
