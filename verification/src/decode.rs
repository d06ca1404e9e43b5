use vstd::prelude::*;

use crate::fib::{fib, code_value, is_fib_prefix, lemma_code_value_push};

verus! {

/// Returned when decoding a number fails; both kinds carry the digit
/// position at which the trouble was seen.
#[derive(Debug, PartialEq, Eq, Clone, Copy)]
pub enum DecodeError {
    /// The number under construction needed a Fibonacci sequence element
    /// beyond those that fit the result type.
    FibonacciElementOverflow { bit_pos: usize },
    /// Summing the Fibonacci sequence elements overflowed the result type.
    /// More than anything this points to a flipped bit in the stream.
    ConstructionOverflow { bit_pos: usize },
}

/// The position of the first set bit at `q` or beyond whose predecessor is
/// also set, the bit before `q` being given by `last`: where a decoder
/// scanning from `q` sees the terminator pattern.
pub open spec fn find_pair(s: Seq<bool>, last: bool, q: int) -> Option<int>
    decreases s.len() - q,
{
    if q < 0 || q >= s.len() {
        None
    } else if last && s[q] {
        Some(q)
    } else {
        find_pair(s, s[q], q + 1)
    }
}

/// The cursor position after scanning from `q` up to and over the next
/// terminator pattern, or to the end when none is left.
pub open spec fn skip_end(s: Seq<bool>, last: bool, q: int) -> int {
    match find_pair(s, last, q) {
        Some(j) => j + 1,
        None => s.len() as int,
    }
}

/// One decoding step in the middle of a value: the word started at `p`, the
/// next bit to read is at `q`, `last` is the bit before `q`, the table has
/// `L` entries and the result type tops out at `M`.  Yields what the step
/// returns together with the cursor position after it.
pub open spec fn scan(s: Seq<bool>, p: int, q: int, last: bool, L: int, M: nat) -> (Option<
    Result<nat, DecodeError>,
>, int)
    decreases s.len() - q,
{
    if q < p || q >= s.len() {
        (None, s.len() as int)
    } else if last && s[q] {
        (Some(Ok(code_value(s.subrange(p, q)))), q + 1)
    } else if q - p >= L {
        (
            Some(Err(DecodeError::FibonacciElementOverflow { bit_pos: (q - p) as usize })),
            skip_end(s, s[q], q + 1),
        )
    } else if s[q] && code_value(s.subrange(p, q + 1)) > M {
        (
            Some(Err(DecodeError::ConstructionOverflow { bit_pos: (q - p) as usize })),
            skip_end(s, s[q], q + 1),
        )
    } else {
        scan(s, p, q + 1, s[q], L, M)
    }
}

/// What one decoding call returns on the stream `s` from position `p`:
/// `None` at exhaustion, otherwise one value or one error.
pub open spec fn step_spec(s: Seq<bool>, p: int, L: int, M: nat) -> Option<
    Result<nat, DecodeError>,
> {
    scan(s, p, p, false, L, M).0
}

/// Where the cursor stands after one decoding call from `p`.
pub open spec fn step_pos(s: Seq<bool>, p: int, L: int, M: nat) -> int {
    scan(s, p, p, false, L, M).1
}

/// The factor a bit contributes with: one or zero.
pub fn multiplier(bit: bool) -> (r: u64)
    ensures
        r == if bit {
            1u64
        } else {
            0u64
        },
{
    if bit {
        1
    } else {
        0
    }
}

/// Two set bits in a row close a code word.
pub fn is_terminator(bit: bool, last: bool) -> (r: bool)
    ensures
        r == (bit && last),
{
    bit && last
}

/// After a failed value, reads on until the next terminator pattern so that
/// the following value starts at a clean boundary; `elt` is the bit read
/// last.
pub fn consume_overflow(elt: bool, bits: &Vec<bool>, pos: &mut usize)
    requires
        *old(pos) <= bits@.len(),
    ensures
        *final(pos) == skip_end(bits@, elt, *old(pos) as int),
        *old(pos) <= *final(pos) <= bits@.len(),
{
    let ghost p0 = *pos as int;
    let mut last = elt;
    loop
        invariant_except_break
            skip_end(bits@, elt, p0) == skip_end(bits@, last, *pos as int),
        invariant
            *pos <= bits@.len(),
            p0 <= *pos as int,
        ensures
            *pos as int == skip_end(bits@, elt, p0),
            *pos <= bits@.len(),
        decreases bits@.len() - *pos,
    {
        if *pos >= bits.len() {
            proof {
                assert(find_pair(bits@, last, *pos as int) is None);
            }
            break;
        }
        let b = bits[*pos];
        *pos = *pos + 1;
        if is_terminator(b, last) {
            proof {
                assert(find_pair(bits@, last, *pos as int - 1) == Some(*pos as int - 1));
            }
            break;
        }
        proof {
            assert(find_pair(bits@, last, *pos as int - 1) == find_pair(
                bits@,
                bits@[*pos as int - 1],
                *pos as int,
            ));
        }
        last = b;
    }
}

/// Reads one value out of `bits` from `*pos` on, against a Fibonacci table
/// of `table@.len()` entries for a result type that tops out at `max`.
/// Returns the value closed by the next terminator, an error when the value
/// outgrows the result type (the cursor then skips to the next terminator),
/// or `None` when the bits run out first.
pub(crate) fn decode_from(bits: &Vec<bool>, pos: &mut usize, table: &Vec<u64>, max: u64) -> (r:
    Option<Result<u64, DecodeError>>)
    requires
        *old(pos) <= bits@.len(),
        is_fib_prefix(table@),
    ensures
        *final(pos) as int == step_pos(bits@, *old(pos) as int, table@.len() as int, max as nat),
        *old(pos) <= *final(pos) <= bits@.len(),
        match step_spec(bits@, *old(pos) as int, table@.len() as int, max as nat) {
            None => r is None,
            Some(Ok(v)) => r == Some(Result::<u64, DecodeError>::Ok(v as u64)) && v <= max as nat,
            Some(Err(e)) => r == Some(Result::<u64, DecodeError>::Err(e)),
        },
{
    let ghost p0 = *pos as int;
    let ghost l = table@.len() as int;
    let ghost m = max as nat;
    let mut i: usize = 0;
    let mut accumulator: u64 = 0;
    let mut last = false;
    while *pos < bits.len()
        invariant
            is_fib_prefix(table@),
            l == table@.len() as int,
            m == max as nat,
            0 <= p0,
            p0 == *old(pos) as int,
            p0 + i == *pos as int,
            p0 <= *pos as int,
            *pos <= bits@.len(),
            accumulator as nat == code_value(bits@.subrange(p0, *pos as int)),
            accumulator <= max,
            last == if *pos as int == p0 {
                false
            } else {
                bits@[*pos as int - 1]
            },
            scan(bits@, p0, p0, false, l, m) == scan(bits@, p0, *pos as int, last, l, m),
        decreases bits@.len() - *pos,
    {
        let ghost q = *pos as int;
        let elt = bits[*pos];
        *pos = *pos + 1;
        if is_terminator(elt, last) {
            proof {
                assert(scan(bits@, p0, q, last, l, m) == (
                    Some(Result::<nat, DecodeError>::Ok(code_value(bits@.subrange(p0, q)))),
                    q + 1,
                ));
            }
            return Some(Ok(accumulator));
        }
        proof {
            assert(bits@.subrange(p0, q + 1) =~= bits@.subrange(p0, q).push(bits@[q]));
            lemma_code_value_push(bits@.subrange(p0, q), bits@[q]);
        }
        if i < table.len() {
            let factor = multiplier(elt);
            proof {
                assert(table@[i as int] as nat == fib(i as nat));
                if elt {
                    assert(factor * table@[i as int] == table@[i as int]);
                } else {
                    assert(factor * table@[i as int] == 0);
                }
            }
            let digit = factor * table[i];
            match accumulator.checked_add(digit) {
                Some(a) => {
                    if a <= max {
                        accumulator = a;
                        proof {
                            assert(scan(bits@, p0, q, last, l, m) == scan(
                                bits@,
                                p0,
                                q + 1,
                                bits@[q],
                                l,
                                m,
                            ));
                        }
                    } else {
                        proof {
                            assert(bits@[q]);
                            assert(code_value(bits@.subrange(p0, q + 1)) > m);
                            assert(scan(bits@, p0, q, last, l, m) == (
                                Some(Result::<nat, DecodeError>::Err(
                                    DecodeError::ConstructionOverflow {
                                        bit_pos: (q - p0) as usize,
                                    },
                                )),
                                skip_end(bits@, bits@[q], q + 1),
                            ));
                        }
                        consume_overflow(elt, bits, pos);
                        return Some(Err(DecodeError::ConstructionOverflow { bit_pos: i }));
                    }
                },
                None => {
                    proof {
                        assert(bits@[q]);
                        assert(code_value(bits@.subrange(p0, q + 1)) > m);
                        assert(scan(bits@, p0, q, last, l, m) == (
                            Some(Result::<nat, DecodeError>::Err(
                                DecodeError::ConstructionOverflow { bit_pos: (q - p0) as usize },
                            )),
                            skip_end(bits@, bits@[q], q + 1),
                        ));
                    }
                    consume_overflow(elt, bits, pos);
                    return Some(Err(DecodeError::ConstructionOverflow { bit_pos: i }));
                },
            }
        } else {
            proof {
                assert(scan(bits@, p0, q, last, l, m) == (
                    Some(Result::<nat, DecodeError>::Err(
                        DecodeError::FibonacciElementOverflow { bit_pos: (q - p0) as usize },
                    )),
                    skip_end(bits@, bits@[q], q + 1),
                ));
            }
            consume_overflow(elt, bits, pos);
            return Some(Err(DecodeError::FibonacciElementOverflow { bit_pos: i }));
        }
        i = i + 1;
        last = elt;
    }
    proof {
        assert(scan(bits@, p0, *pos as int, last, l, m) == (
            None::<Result<nat, DecodeError>>,
            bits@.len() as int,
        ));
    }
    None
}

} // verus!
