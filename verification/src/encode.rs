use vstd::prelude::*;

use crate::bitvec::{bits_of, bitvec_push};
use crate::fib::{
    fib,
    code_value,
    is_codeword_concat,
    is_codeword_of,
    is_fib_prefix,
    lemma_code_value_push,
};

verus! {

/// Indicates that encoding a number failed.
#[derive(Debug, PartialEq, Eq)]
pub enum EncodeError<T> {
    /// An attempt to encode the number `0`, which has no representation
    /// in Fibonacci coding.
    ValueTooSmall(T),
    /// An attempt to subtract a larger Fibonacci number than the number
    /// left to encode.  A well-formed table never leads here.
    Underflow(T),
}

/// Indicates that encoding a sequence of numbers failed at one element.
#[derive(Debug, PartialEq, Eq)]
pub struct ElementEncodeError<T> {
    /// The position of the element where encoding failed.
    pub index: usize,
    /// The error encountered when encoding that element.
    pub error: EncodeError<T>,
}

/// The second run of bits grew out of the first.
pub open spec fn extends(old_bits: Seq<bool>, new_bits: Seq<bool>) -> bool {
    new_bits.len() >= old_bits.len() && new_bits.take(old_bits.len() as int) == old_bits
}

/// What the second run of bits holds beyond the first.
pub open spec fn appended(old_bits: Seq<bool>, new_bits: Seq<bool>) -> Seq<bool> {
    new_bits.skip(old_bits.len() as int)
}

/// Encoding of one primitive unsigned integer, greater than zero, with
/// Fibonacci coding.
pub trait EncodeOne: Sized {
    /// The number this value stands for.
    spec fn enc_val(self) -> nat;

    /// A bound on the bits one code word of this type can take.
    spec fn max_code_len() -> nat;

    /// Fibonacci-encodes the value onto the end of an existing bit vector.
    /// Fails exactly on the value zero, which has no code word, and then
    /// leaves the vector as it was.
    fn fib_encode_mut(self, vec: &mut bit_vec::BitVec) -> (r: Result<(), EncodeError<Self>>)
        requires
            bits_of(*old(vec)).len() + Self::max_code_len() <= usize::MAX,
        ensures
            extends(bits_of(*old(vec)), bits_of(*final(vec))),
            bits_of(*final(vec)).len() <= bits_of(*old(vec)).len() + Self::max_code_len(),
            self.enc_val() == 0 ==> r == Err::<(), EncodeError<Self>>(
                EncodeError::ValueTooSmall(self),
            ) && bits_of(*final(vec)) == bits_of(*old(vec)),
            self.enc_val() != 0 ==> r == Ok::<(), EncodeError<Self>>(()) && is_codeword_of(
                appended(bits_of(*old(vec)), bits_of(*final(vec))),
                self.enc_val(),
            ),
    ;

    /// Fibonacci-encodes the value into a fresh bit vector.
    /// Fails exactly on the value zero, which has no code word.
    fn fib_encode(self) -> (r: Result<bit_vec::BitVec, EncodeError<Self>>)
        ensures
            self.enc_val() == 0 ==> (r matches Err(e) && e == EncodeError::ValueTooSmall(self)),
            self.enc_val() != 0 ==> (r matches Ok(v) && is_codeword_of(
                bits_of(v),
                self.enc_val(),
            )),
    ;
}

/// Encoding of a run of unsigned integers, each greater than zero, with
/// Fibonacci coding: the code words stand back to back, nothing between
/// them.
pub trait Encode<T>: Sized {
    /// The elements to encode, in order.
    spec fn enc_elems(self) -> Seq<T>;

    /// The number an element stands for.
    spec fn elem_val(x: T) -> nat;

    /// A bound on the bits one code word of the element type can take.
    spec fn elem_max_code_len() -> nat;

    /// Fibonacci-encodes every element onto the end of an existing bit
    /// vector.  At a zero element it stops and reports that element's
    /// position; the code words of the elements before it stay in the
    /// vector.
    fn fib_encode_mut(self, vec: &mut bit_vec::BitVec) -> (r: Result<(), ElementEncodeError<T>>)
        requires
            bits_of(*old(vec)).len() + self.enc_elems().len() * Self::elem_max_code_len()
                <= usize::MAX,
        ensures
            extends(bits_of(*old(vec)), bits_of(*final(vec))),
            r is Ok <==> (forall|j: int|
                0 <= j < self.enc_elems().len() ==> Self::elem_val(
                    #[trigger] self.enc_elems()[j],
                ) != 0),
            r is Ok ==> is_codeword_concat(
                appended(bits_of(*old(vec)), bits_of(*final(vec))),
                self.enc_elems().map_values(|x: T| Self::elem_val(x)),
            ),
            r matches Err(e) ==> {
                &&& (e.index as int) < self.enc_elems().len()
                &&& Self::elem_val(self.enc_elems()[e.index as int]) == 0
                &&& (forall|j: int|
                    0 <= j < e.index as int ==> Self::elem_val(#[trigger] self.enc_elems()[j])
                        != 0)
                &&& e.error == EncodeError::<T>::ValueTooSmall(self.enc_elems()[e.index as int])
                &&& is_codeword_concat(
                    appended(bits_of(*old(vec)), bits_of(*final(vec))),
                    self.enc_elems().take(e.index as int).map_values(|x: T| Self::elem_val(x)),
                )
            },
    ;

    /// Fibonacci-encodes every element into a fresh bit vector.  At a zero
    /// element it stops and reports that element's position.
    fn fib_encode(self) -> (r: Result<bit_vec::BitVec, ElementEncodeError<T>>)
        requires
            self.enc_elems().len() * Self::elem_max_code_len() <= usize::MAX,
        ensures
            r is Ok <==> (forall|j: int|
                0 <= j < self.enc_elems().len() ==> Self::elem_val(
                    #[trigger] self.enc_elems()[j],
                ) != 0),
            r matches Ok(v) ==> is_codeword_concat(
                bits_of(v),
                self.enc_elems().map_values(|x: T| Self::elem_val(x)),
            ),
            r matches Err(e) ==> {
                &&& (e.index as int) < self.enc_elems().len()
                &&& Self::elem_val(self.enc_elems()[e.index as int]) == 0
                &&& (forall|j: int|
                    0 <= j < e.index as int ==> Self::elem_val(#[trigger] self.enc_elems()[j])
                        != 0)
                &&& e.error == EncodeError::<T>::ValueTooSmall(self.enc_elems()[e.index as int])
            },
    ;
}

/// Writes the Zeckendorf digits of `rem` for the positions `0 ..= idx` onto
/// the end of `w`, lowest position first, choosing greedily from `idx` down.
fn put_digits(rem: u64, idx: usize, table: &Vec<u64>, w: &mut Vec<bool>)
    requires
        is_fib_prefix(table@),
        idx < table@.len(),
        (rem as nat) < fib(idx as nat + 1),
    ensures
        final(w)@.len() == old(w)@.len() + idx + 1,
        final(w)@.take(old(w)@.len() as int) == old(w)@,
        code_value(final(w)@.skip(old(w)@.len() as int)) == rem as nat,
        forall|i: int|
            0 <= i < idx ==> !(#[trigger] final(w)@[old(w)@.len() + i] && final(w)@[old(w)@.len()
                + i + 1]),
        final(w)@[final(w)@.len() - 1] == (fib(idx as nat) <= rem as nat),
    decreases idx,
{
    let ghost p0 = w@.len() as int;
    let bit = table[idx] <= rem;
    let rem2 = if bit {
        rem - table[idx]
    } else {
        rem
    };
    proof {
        assert(table@[idx as int] as nat == fib(idx as nat));
        if idx > 0 {
            assert(fib(idx as nat + 1) == fib((idx - 1) as nat) + fib(idx as nat));
            crate::fib::lemma_fib_mono((idx - 1) as nat, idx as nat);
        }
    }
    if idx == 0 {
        proof {
            assert(fib(1) == 2);
        }
    } else {
        put_digits(rem2, idx - 1, table, w);
    }
    let ghost wmid = w@;
    w.push(bit);
    proof {
        let d1 = wmid.skip(p0);
        assert(w@.skip(p0) =~= d1.push(bit));
        lemma_code_value_push(d1, bit);
        assert(w@.take(p0) =~= old(w)@);
        if idx > 0 && bit {
            // the digit below a chosen one is never chosen
            assert((rem2 as nat) < fib((idx - 1) as nat));
            assert(!wmid[p0 + idx - 1]);
        }
        assert forall|i: int| 0 <= i < idx implies !(#[trigger] w@[p0 + i] && w@[p0 + i + 1]) by {
            if i < idx - 1 {
                assert(!(wmid[p0 + i] && wmid[p0 + i + 1]));
            }
        }
    }
}

/// Builds the code word of `n`: its digits up to the highest Fibonacci
/// number not above `n`, then the closing set bit.
pub(crate) fn encode_digits(n: u64, table: &Vec<u64>) -> (w: Vec<bool>)
    requires
        is_fib_prefix(table@),
        table@.len() >= 1,
        1 <= n,
        (n as nat) < fib(table@.len() as nat),
    ensures
        is_codeword_of(w@, n as nat),
        w@.len() <= table@.len() + 1,
        fib((w@.len() - 2) as nat) <= n as nat,
        (n as nat) < fib((w@.len() - 1) as nat),
{
    let mut split: usize = table.len() - 1;
    while table[split] > n
        invariant
            is_fib_prefix(table@),
            0 <= split < table@.len(),
            1 <= n,
            (n as nat) < fib(split as nat + 1),
        decreases split,
    {
        proof {
            assert(table@[split as int] as nat == fib(split as nat));
            if split == 0 {
                assert(fib(0) == 1);
            }
        }
        split = split - 1;
    }
    proof {
        assert(table@[split as int] as nat == fib(split as nat));
    }
    let mut w: Vec<bool> = Vec::new();
    put_digits(n, split, table, &mut w);
    let ghost d = w@;
    w.push(true);
    proof {
        assert(d =~= d.skip(0));
        assert(w@.take(w@.len() - 1) =~= d);
        assert(w@[w@.len() - 2] == d[d.len() - 1]);
        assert forall|i: int| 0 <= i < w@.len() - 2 implies !(#[trigger] w@[i] && w@[i + 1]) by {
            assert(!(d[0 + i] && d[0 + i + 1]));
        }
    }
    w
}

/// Appends the code word of `n` to `result`, or reports why it cannot:
/// `ValueTooSmall` when `n` is zero, which has no code word.  With a table
/// of Fibonacci numbers the greedy digit choice never underflows, so no
/// other error leaves here and the buffer is never left half-written.
pub(crate) fn bits_from_table(n: u64, table: &Vec<u64>, result: &mut bit_vec::BitVec) -> (r:
    Result<(), EncodeError<u64>>)
    requires
        is_fib_prefix(table@),
        table@.len() >= 1,
        (n as nat) < fib(table@.len() as nat),
        bits_of(*old(result)).len() + table@.len() + 1 <= usize::MAX,
    ensures
        extends(bits_of(*old(result)), bits_of(*final(result))),
        bits_of(*final(result)).len() <= bits_of(*old(result)).len() + table@.len() + 1,
        n == 0 ==> r == Err::<(), EncodeError<u64>>(EncodeError::ValueTooSmall(n)) && bits_of(
            *final(result),
        ) == bits_of(*old(result)),
        n != 0 ==> r == Ok::<(), EncodeError<u64>>(()) && is_codeword_of(
            appended(bits_of(*old(result)), bits_of(*final(result))),
            n as nat,
        ) && fib((appended(bits_of(*old(result)), bits_of(*final(result))).len() - 2) as nat)
            <= n as nat && (n as nat) < fib(
            (appended(bits_of(*old(result)), bits_of(*final(result))).len() - 1) as nat,
        ),
{
    if n == 0 {
        proof {
            assert(bits_of(*result).take(bits_of(*result).len() as int) =~= bits_of(*result));
        }
        return Err(EncodeError::ValueTooSmall(n));
    }
    let w = encode_digits(n, table);
    let mut j: usize = 0;
    while j < w.len()
        invariant
            j <= w@.len(),
            w@.len() <= table@.len() + 1,
            bits_of(*old(result)).len() + table@.len() + 1 <= usize::MAX,
            bits_of(*result) == bits_of(*old(result)) + w@.take(j as int),
        decreases w@.len() - j,
    {
        bitvec_push(result, w[j]);
        proof {
            assert(w@.take(j + 1) =~= w@.take(j as int).push(w@[j as int]));
            assert(bits_of(*result) =~= bits_of(*old(result)) + w@.take(j + 1));
        }
        j = j + 1;
    }
    proof {
        assert(w@.take(w@.len() as int) =~= w@);
        assert(appended(bits_of(*old(result)), bits_of(*final(result))) =~= w@);
        assert(bits_of(*final(result)).take(bits_of(*old(result)).len() as int) =~= bits_of(
            *old(result),
        ));
    }
    Ok(())
}

} // verus!
