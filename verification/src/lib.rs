//! Encoding and decoding of positive integers with Fibonacci coding.
//!
//! A positive integer is written as the sum of non-consecutive Fibonacci
//! numbers (its Zeckendorf representation), least significant position
//! first, and the code word is closed by a second set bit after the top
//! digit, so every code word ends in two consecutive set bits.  Code words
//! are concatenated without padding; the terminator pattern alone separates
//! the values, which makes the stream self-synchronizing: damage to one
//! code word never reaches past the word after it.

mod bitvec;
mod decode;
mod encode;
mod fib;
mod generator;
mod laws;
mod widths;

pub use crate::bitvec::bits_of;

pub use crate::fib::fib;
pub use crate::fib::code_value;
pub use crate::fib::generate;
pub use crate::fib::is_codeword_concat;
pub use crate::fib::is_codeword_of;
pub use crate::fib::is_fib_prefix;
pub use crate::fib::is_fib_table;
pub use crate::fib::lemma_codeword_unique;
pub use crate::fib::lemma_zeckendorf_unique;
pub use crate::fib::no_adjacent_bits;

pub use crate::encode::Encode;
pub use crate::encode::EncodeError;
pub use crate::encode::EncodeOne;
pub use crate::encode::ElementEncodeError;
pub use crate::encode::appended;
pub use crate::encode::extends;

pub use crate::decode::DecodeError;
pub use crate::decode::consume_overflow;
pub use crate::decode::find_pair;
pub use crate::decode::is_terminator;
pub use crate::decode::multiplier;
pub use crate::decode::scan;
pub use crate::decode::skip_end;
pub use crate::decode::step_pos;
pub use crate::decode::step_spec;

pub use crate::widths::DecodeIterU8;
pub use crate::widths::DecodeIterU16;
pub use crate::widths::DecodeIterU32;
pub use crate::widths::DecodeIterU64;
pub use crate::widths::fib_decode_u8;
pub use crate::widths::fib_decode_u16;
pub use crate::widths::fib_decode_u32;
pub use crate::widths::fib_decode_u64;

pub use crate::laws::decode_all_from;
pub use crate::laws::lemma_decode_all_prefix;
pub use crate::laws::lemma_downcast_overflow;
pub use crate::laws::lemma_round_trip;
pub use crate::laws::lemma_scan_codeword;
pub use crate::laws::lemma_self_synchronization;
pub use crate::laws::lemma_single_flip_region_bound;
pub use crate::laws::lemma_sequence_round_trip;
pub use crate::laws::lemma_step_advances;
pub use crate::laws::resync_tail;

pub use crate::generator::dec_digits;
pub use crate::generator::decode_wrapper_text;
pub use crate::generator::encode_impl_line;
pub use crate::generator::write_decode_wrapper;
pub use crate::generator::write_out;
