use vstd::prelude::*;

use crate::bitvec::{bits_of, bitvec_new, bitvec_to_bools};
use crate::decode::{decode_from, step_pos, step_spec, DecodeError};
use crate::encode::{
    appended,
    bits_from_table,
    extends,
    Encode,
    EncodeError,
    EncodeOne,
    ElementEncodeError,
};
use crate::fib::{
    fib,
    generate,
    is_codeword_concat,
    is_fib_table,
    lemma_codeword_concat_snoc,
    lemma_fib_table_len,
    lemma_fib_width_values,
};

verus! {

/// The table of the Fibonacci numbers a `u8` can hold has twelve entries.
proof fn lemma_table_u8(t: Seq<u64>)
    requires
        is_fib_table(t, 255),
    ensures
        t.len() == 12,
        fib(12) > 255,
{
    lemma_fib_width_values();
    lemma_fib_table_len(t, 255, 12);
}

impl EncodeOne for u8 {
    open spec fn enc_val(self) -> nat {
        self as nat
    }

    open spec fn max_code_len() -> nat {
        13
    }

    fn fib_encode_mut(self, vec: &mut bit_vec::BitVec) -> (r: Result<(), EncodeError<u8>>) {
        let table = generate(255);
        proof {
            lemma_table_u8(table@);
        }
        match bits_from_table(self as u64, &table, vec) {
            Ok(()) => Ok(()),
            Err(EncodeError::ValueTooSmall(_)) => Err(EncodeError::ValueTooSmall(self)),
            Err(EncodeError::Underflow(_)) => Err(EncodeError::Underflow(self)),
        }
    }

    fn fib_encode(self) -> (r: Result<bit_vec::BitVec, EncodeError<u8>>) {
        let mut vec = bitvec_new();
        let res = self.fib_encode_mut(&mut vec);
        proof {
            assert(bits_of(vec).skip(0) =~= bits_of(vec));
        }
        match res {
            Ok(()) => Ok(vec),
            Err(e) => Err(e),
        }
    }
}

impl Encode<u8> for Vec<u8> {
    open spec fn enc_elems(self) -> Seq<u8> {
        self@
    }

    open spec fn elem_val(x: u8) -> nat {
        x as nat
    }

    open spec fn elem_max_code_len() -> nat {
        13
    }

    fn fib_encode_mut(self, vec: &mut bit_vec::BitVec) -> (r: Result<(), ElementEncodeError<u8>>) {
        let table = generate(255);
        proof {
            lemma_table_u8(table@);
            assert(bits_of(*vec).take(bits_of(*vec).len() as int) =~= bits_of(*vec));
            assert(appended(bits_of(*vec), bits_of(*vec)) =~= Seq::<bool>::empty());
            assert(self@.take(0).map_values(|x: u8| x as nat) =~= Seq::<nat>::empty());
            assert(is_codeword_concat(Seq::<bool>::empty(), Seq::<nat>::empty()));
        }
        let mut idx: usize = 0;
        while idx < self.len()
            invariant
                idx <= self@.len(),
                is_fib_table(table@, 255),
                table@.len() == 12,
                fib(12) > 255,
                bits_of(*old(vec)).len() + self@.len() * 13 <= usize::MAX,
                extends(bits_of(*old(vec)), bits_of(*vec)),
                bits_of(*vec).len() <= bits_of(*old(vec)).len() + idx * 13,
                forall|j: int| 0 <= j < idx ==> self@[j] != 0,
                is_codeword_concat(
                    appended(bits_of(*old(vec)), bits_of(*vec)),
                    self@.take(idx as int).map_values(|x: u8| x as nat),
                ),
            decreases self@.len() - idx,
        {
            let elt = self[idx];
            let ghost pre = bits_of(*vec);
            let ghost oldb = bits_of(*old(vec));
            match bits_from_table(elt as u64, &table, vec) {
                Ok(()) => {
                    proof {
                        let a1 = appended(oldb, pre);
                        let w = appended(pre, bits_of(*vec));
                        lemma_codeword_concat_snoc(
                            a1,
                            self@.take(idx as int).map_values(|x: u8| x as nat),
                            w,
                            elt as nat,
                        );
                        assert(appended(oldb, bits_of(*vec)) =~= a1 + w);
                        assert(self@.take(idx as int + 1).map_values(|x: u8| x as nat)
                            =~= self@.take(idx as int).map_values(|x: u8| x as nat).push(
                            elt as nat,
                        ));
                        assert(bits_of(*vec).take(oldb.len() as int) =~= oldb);
                    }
                },
                Err(_) => {
                    proof {
                        assert(self@[idx as int] == 0);
                        assert(Self::elem_val(self.enc_elems()[idx as int]) == 0);
                        assert(self@.take(idx as int).map_values(|x: u8| x as nat)
                            =~= self@.take(idx as int).map_values(|x: u8| Self::elem_val(x)));
                    }
                    return Err(
                        ElementEncodeError { index: idx, error: EncodeError::ValueTooSmall(elt) },
                    );
                },
            }
            idx = idx + 1;
        }
        proof {
            assert(self@.take(self@.len() as int) =~= self@);
            assert(self@.map_values(|x: u8| x as nat) =~= self@.map_values(
                |x: u8| Self::elem_val(x),
            ));
        }
        Ok(())
    }

    fn fib_encode(self) -> (r: Result<bit_vec::BitVec, ElementEncodeError<u8>>) {
        let mut vec = bitvec_new();
        let res = self.fib_encode_mut(&mut vec);
        proof {
            assert(bits_of(vec).skip(0) =~= bits_of(vec));
        }
        match res {
            Ok(()) => Ok(vec),
            Err(e) => Err(e),
        }
    }
}

/// An iterator-like cursor that yields Fibonacci-decoded `u8` integers.
pub struct DecodeIterU8 {
    bits: Vec<bool>,
    pos: usize,
    table: Vec<u64>,
}

impl DecodeIterU8 {
    /// The bit stream being decoded.
    pub closed spec fn stream(self) -> Seq<bool> {
        self.bits@
    }

    /// How many bits are consumed so far.
    pub closed spec fn cursor(self) -> int {
        self.pos as int
    }

    /// The table is the width's own and the cursor is inside the stream.
    pub closed spec fn wf(self) -> bool {
        is_fib_table(self.table@, 255) && self.pos <= self.bits@.len()
    }

    /// Decodes the next value from the stream: `Ok` for a value closed by
    /// the next terminator, an error when the value outgrows `u8` (the
    /// cursor then skips past the next terminator), `None` at exhaustion.
    pub fn next(&mut self) -> (r: Option<Result<u8, DecodeError>>)
        requires
            old(self).wf(),
        ensures
            final(self).wf(),
            final(self).stream() == old(self).stream(),
            old(self).cursor() <= final(self).cursor() <= final(self).stream().len(),
            final(self).cursor() == step_pos(old(self).stream(), old(self).cursor(), 12, 255),
            match step_spec(old(self).stream(), old(self).cursor(), 12, 255) {
                None => r is None,
                Some(Ok(v)) => r == Some(Result::<u8, DecodeError>::Ok(v as u8)) && v <= 255,
                Some(Err(e)) => r == Some(Result::<u8, DecodeError>::Err(e)),
            },
    {
        proof {
            lemma_table_u8(self.table@);
        }
        let mut p = self.pos;
        let out = decode_from(&self.bits, &mut p, &self.table, 255);
        self.pos = p;
        match out {
            None => None,
            Some(Ok(v)) => Some(Ok(v as u8)),
            Some(Err(e)) => Some(Err(e)),
        }
    }
}

/// Returns a cursor that consumes the bits of `collection` and
/// Fibonacci-decodes them into `u8` integers.
pub fn fib_decode_u8(collection: bit_vec::BitVec) -> (r: DecodeIterU8)
    ensures
        r.wf(),
        r.stream() == bits_of(collection),
        r.cursor() == 0,
{
    DecodeIterU8 { bits: bitvec_to_bools(&collection), pos: 0, table: generate(255) }
}

/// The table of the Fibonacci numbers a `u16` can hold has twenty-three entries.
proof fn lemma_table_u16(t: Seq<u64>)
    requires
        is_fib_table(t, 65535),
    ensures
        t.len() == 23,
        fib(23) > 65535,
{
    lemma_fib_width_values();
    lemma_fib_table_len(t, 65535, 23);
}

impl EncodeOne for u16 {
    open spec fn enc_val(self) -> nat {
        self as nat
    }

    open spec fn max_code_len() -> nat {
        24
    }

    fn fib_encode_mut(self, vec: &mut bit_vec::BitVec) -> (r: Result<(), EncodeError<u16>>) {
        let table = generate(65535);
        proof {
            lemma_table_u16(table@);
        }
        match bits_from_table(self as u64, &table, vec) {
            Ok(()) => Ok(()),
            Err(EncodeError::ValueTooSmall(_)) => Err(EncodeError::ValueTooSmall(self)),
            Err(EncodeError::Underflow(_)) => Err(EncodeError::Underflow(self)),
        }
    }

    fn fib_encode(self) -> (r: Result<bit_vec::BitVec, EncodeError<u16>>) {
        let mut vec = bitvec_new();
        let res = self.fib_encode_mut(&mut vec);
        proof {
            assert(bits_of(vec).skip(0) =~= bits_of(vec));
        }
        match res {
            Ok(()) => Ok(vec),
            Err(e) => Err(e),
        }
    }
}

impl Encode<u16> for Vec<u16> {
    open spec fn enc_elems(self) -> Seq<u16> {
        self@
    }

    open spec fn elem_val(x: u16) -> nat {
        x as nat
    }

    open spec fn elem_max_code_len() -> nat {
        24
    }

    fn fib_encode_mut(self, vec: &mut bit_vec::BitVec) -> (r: Result<(), ElementEncodeError<u16>>) {
        let table = generate(65535);
        proof {
            lemma_table_u16(table@);
            assert(bits_of(*vec).take(bits_of(*vec).len() as int) =~= bits_of(*vec));
            assert(appended(bits_of(*vec), bits_of(*vec)) =~= Seq::<bool>::empty());
            assert(self@.take(0).map_values(|x: u16| x as nat) =~= Seq::<nat>::empty());
            assert(is_codeword_concat(Seq::<bool>::empty(), Seq::<nat>::empty()));
        }
        let mut idx: usize = 0;
        while idx < self.len()
            invariant
                idx <= self@.len(),
                is_fib_table(table@, 65535),
                table@.len() == 23,
                fib(23) > 65535,
                bits_of(*old(vec)).len() + self@.len() * 24 <= usize::MAX,
                extends(bits_of(*old(vec)), bits_of(*vec)),
                bits_of(*vec).len() <= bits_of(*old(vec)).len() + idx * 24,
                forall|j: int| 0 <= j < idx ==> self@[j] != 0,
                is_codeword_concat(
                    appended(bits_of(*old(vec)), bits_of(*vec)),
                    self@.take(idx as int).map_values(|x: u16| x as nat),
                ),
            decreases self@.len() - idx,
        {
            let elt = self[idx];
            let ghost pre = bits_of(*vec);
            let ghost oldb = bits_of(*old(vec));
            match bits_from_table(elt as u64, &table, vec) {
                Ok(()) => {
                    proof {
                        let a1 = appended(oldb, pre);
                        let w = appended(pre, bits_of(*vec));
                        lemma_codeword_concat_snoc(
                            a1,
                            self@.take(idx as int).map_values(|x: u16| x as nat),
                            w,
                            elt as nat,
                        );
                        assert(appended(oldb, bits_of(*vec)) =~= a1 + w);
                        assert(self@.take(idx as int + 1).map_values(|x: u16| x as nat)
                            =~= self@.take(idx as int).map_values(|x: u16| x as nat).push(
                            elt as nat,
                        ));
                        assert(bits_of(*vec).take(oldb.len() as int) =~= oldb);
                    }
                },
                Err(_) => {
                    proof {
                        assert(self@[idx as int] == 0);
                        assert(Self::elem_val(self.enc_elems()[idx as int]) == 0);
                        assert(self@.take(idx as int).map_values(|x: u16| x as nat)
                            =~= self@.take(idx as int).map_values(|x: u16| Self::elem_val(x)));
                    }
                    return Err(
                        ElementEncodeError { index: idx, error: EncodeError::ValueTooSmall(elt) },
                    );
                },
            }
            idx = idx + 1;
        }
        proof {
            assert(self@.take(self@.len() as int) =~= self@);
            assert(self@.map_values(|x: u16| x as nat) =~= self@.map_values(
                |x: u16| Self::elem_val(x),
            ));
        }
        Ok(())
    }

    fn fib_encode(self) -> (r: Result<bit_vec::BitVec, ElementEncodeError<u16>>) {
        let mut vec = bitvec_new();
        let res = self.fib_encode_mut(&mut vec);
        proof {
            assert(bits_of(vec).skip(0) =~= bits_of(vec));
        }
        match res {
            Ok(()) => Ok(vec),
            Err(e) => Err(e),
        }
    }
}

/// An iterator-like cursor that yields Fibonacci-decoded `u16` integers.
pub struct DecodeIterU16 {
    bits: Vec<bool>,
    pos: usize,
    table: Vec<u64>,
}

impl DecodeIterU16 {
    /// The bit stream being decoded.
    pub closed spec fn stream(self) -> Seq<bool> {
        self.bits@
    }

    /// How many bits are consumed so far.
    pub closed spec fn cursor(self) -> int {
        self.pos as int
    }

    /// The table is the width's own and the cursor is inside the stream.
    pub closed spec fn wf(self) -> bool {
        is_fib_table(self.table@, 65535) && self.pos <= self.bits@.len()
    }

    /// Decodes the next value from the stream: `Ok` for a value closed by
    /// the next terminator, an error when the value outgrows `u16` (the
    /// cursor then skips past the next terminator), `None` at exhaustion.
    pub fn next(&mut self) -> (r: Option<Result<u16, DecodeError>>)
        requires
            old(self).wf(),
        ensures
            final(self).wf(),
            final(self).stream() == old(self).stream(),
            old(self).cursor() <= final(self).cursor() <= final(self).stream().len(),
            final(self).cursor() == step_pos(old(self).stream(), old(self).cursor(), 23, 65535),
            match step_spec(old(self).stream(), old(self).cursor(), 23, 65535) {
                None => r is None,
                Some(Ok(v)) => r == Some(Result::<u16, DecodeError>::Ok(v as u16)) && v <= 65535,
                Some(Err(e)) => r == Some(Result::<u16, DecodeError>::Err(e)),
            },
    {
        proof {
            lemma_table_u16(self.table@);
        }
        let mut p = self.pos;
        let out = decode_from(&self.bits, &mut p, &self.table, 65535);
        self.pos = p;
        match out {
            None => None,
            Some(Ok(v)) => Some(Ok(v as u16)),
            Some(Err(e)) => Some(Err(e)),
        }
    }
}

/// Returns a cursor that consumes the bits of `collection` and
/// Fibonacci-decodes them into `u16` integers.
pub fn fib_decode_u16(collection: bit_vec::BitVec) -> (r: DecodeIterU16)
    ensures
        r.wf(),
        r.stream() == bits_of(collection),
        r.cursor() == 0,
{
    DecodeIterU16 { bits: bitvec_to_bools(&collection), pos: 0, table: generate(65535) }
}

/// The table of the Fibonacci numbers a `u32` can hold has forty-six entries.
proof fn lemma_table_u32(t: Seq<u64>)
    requires
        is_fib_table(t, 4294967295),
    ensures
        t.len() == 46,
        fib(46) > 4294967295,
{
    lemma_fib_width_values();
    lemma_fib_table_len(t, 4294967295, 46);
}

impl EncodeOne for u32 {
    open spec fn enc_val(self) -> nat {
        self as nat
    }

    open spec fn max_code_len() -> nat {
        47
    }

    fn fib_encode_mut(self, vec: &mut bit_vec::BitVec) -> (r: Result<(), EncodeError<u32>>) {
        let table = generate(4294967295);
        proof {
            lemma_table_u32(table@);
        }
        match bits_from_table(self as u64, &table, vec) {
            Ok(()) => Ok(()),
            Err(EncodeError::ValueTooSmall(_)) => Err(EncodeError::ValueTooSmall(self)),
            Err(EncodeError::Underflow(_)) => Err(EncodeError::Underflow(self)),
        }
    }

    fn fib_encode(self) -> (r: Result<bit_vec::BitVec, EncodeError<u32>>) {
        let mut vec = bitvec_new();
        let res = self.fib_encode_mut(&mut vec);
        proof {
            assert(bits_of(vec).skip(0) =~= bits_of(vec));
        }
        match res {
            Ok(()) => Ok(vec),
            Err(e) => Err(e),
        }
    }
}

impl Encode<u32> for Vec<u32> {
    open spec fn enc_elems(self) -> Seq<u32> {
        self@
    }

    open spec fn elem_val(x: u32) -> nat {
        x as nat
    }

    open spec fn elem_max_code_len() -> nat {
        47
    }

    fn fib_encode_mut(self, vec: &mut bit_vec::BitVec) -> (r: Result<(), ElementEncodeError<u32>>) {
        let table = generate(4294967295);
        proof {
            lemma_table_u32(table@);
            assert(bits_of(*vec).take(bits_of(*vec).len() as int) =~= bits_of(*vec));
            assert(appended(bits_of(*vec), bits_of(*vec)) =~= Seq::<bool>::empty());
            assert(self@.take(0).map_values(|x: u32| x as nat) =~= Seq::<nat>::empty());
            assert(is_codeword_concat(Seq::<bool>::empty(), Seq::<nat>::empty()));
        }
        let mut idx: usize = 0;
        while idx < self.len()
            invariant
                idx <= self@.len(),
                is_fib_table(table@, 4294967295),
                table@.len() == 46,
                fib(46) > 4294967295,
                bits_of(*old(vec)).len() + self@.len() * 47 <= usize::MAX,
                extends(bits_of(*old(vec)), bits_of(*vec)),
                bits_of(*vec).len() <= bits_of(*old(vec)).len() + idx * 47,
                forall|j: int| 0 <= j < idx ==> self@[j] != 0,
                is_codeword_concat(
                    appended(bits_of(*old(vec)), bits_of(*vec)),
                    self@.take(idx as int).map_values(|x: u32| x as nat),
                ),
            decreases self@.len() - idx,
        {
            let elt = self[idx];
            let ghost pre = bits_of(*vec);
            let ghost oldb = bits_of(*old(vec));
            match bits_from_table(elt as u64, &table, vec) {
                Ok(()) => {
                    proof {
                        let a1 = appended(oldb, pre);
                        let w = appended(pre, bits_of(*vec));
                        lemma_codeword_concat_snoc(
                            a1,
                            self@.take(idx as int).map_values(|x: u32| x as nat),
                            w,
                            elt as nat,
                        );
                        assert(appended(oldb, bits_of(*vec)) =~= a1 + w);
                        assert(self@.take(idx as int + 1).map_values(|x: u32| x as nat)
                            =~= self@.take(idx as int).map_values(|x: u32| x as nat).push(
                            elt as nat,
                        ));
                        assert(bits_of(*vec).take(oldb.len() as int) =~= oldb);
                    }
                },
                Err(_) => {
                    proof {
                        assert(self@[idx as int] == 0);
                        assert(Self::elem_val(self.enc_elems()[idx as int]) == 0);
                        assert(self@.take(idx as int).map_values(|x: u32| x as nat)
                            =~= self@.take(idx as int).map_values(|x: u32| Self::elem_val(x)));
                    }
                    return Err(
                        ElementEncodeError { index: idx, error: EncodeError::ValueTooSmall(elt) },
                    );
                },
            }
            idx = idx + 1;
        }
        proof {
            assert(self@.take(self@.len() as int) =~= self@);
            assert(self@.map_values(|x: u32| x as nat) =~= self@.map_values(
                |x: u32| Self::elem_val(x),
            ));
        }
        Ok(())
    }

    fn fib_encode(self) -> (r: Result<bit_vec::BitVec, ElementEncodeError<u32>>) {
        let mut vec = bitvec_new();
        let res = self.fib_encode_mut(&mut vec);
        proof {
            assert(bits_of(vec).skip(0) =~= bits_of(vec));
        }
        match res {
            Ok(()) => Ok(vec),
            Err(e) => Err(e),
        }
    }
}

/// An iterator-like cursor that yields Fibonacci-decoded `u32` integers.
pub struct DecodeIterU32 {
    bits: Vec<bool>,
    pos: usize,
    table: Vec<u64>,
}

impl DecodeIterU32 {
    /// The bit stream being decoded.
    pub closed spec fn stream(self) -> Seq<bool> {
        self.bits@
    }

    /// How many bits are consumed so far.
    pub closed spec fn cursor(self) -> int {
        self.pos as int
    }

    /// The table is the width's own and the cursor is inside the stream.
    pub closed spec fn wf(self) -> bool {
        is_fib_table(self.table@, 4294967295) && self.pos <= self.bits@.len()
    }

    /// Decodes the next value from the stream: `Ok` for a value closed by
    /// the next terminator, an error when the value outgrows `u32` (the
    /// cursor then skips past the next terminator), `None` at exhaustion.
    pub fn next(&mut self) -> (r: Option<Result<u32, DecodeError>>)
        requires
            old(self).wf(),
        ensures
            final(self).wf(),
            final(self).stream() == old(self).stream(),
            old(self).cursor() <= final(self).cursor() <= final(self).stream().len(),
            final(self).cursor() == step_pos(old(self).stream(), old(self).cursor(), 46, 4294967295),
            match step_spec(old(self).stream(), old(self).cursor(), 46, 4294967295) {
                None => r is None,
                Some(Ok(v)) => r == Some(Result::<u32, DecodeError>::Ok(v as u32)) && v <= 4294967295,
                Some(Err(e)) => r == Some(Result::<u32, DecodeError>::Err(e)),
            },
    {
        proof {
            lemma_table_u32(self.table@);
        }
        let mut p = self.pos;
        let out = decode_from(&self.bits, &mut p, &self.table, 4294967295);
        self.pos = p;
        match out {
            None => None,
            Some(Ok(v)) => Some(Ok(v as u32)),
            Some(Err(e)) => Some(Err(e)),
        }
    }
}

/// Returns a cursor that consumes the bits of `collection` and
/// Fibonacci-decodes them into `u32` integers.
pub fn fib_decode_u32(collection: bit_vec::BitVec) -> (r: DecodeIterU32)
    ensures
        r.wf(),
        r.stream() == bits_of(collection),
        r.cursor() == 0,
{
    DecodeIterU32 { bits: bitvec_to_bools(&collection), pos: 0, table: generate(4294967295) }
}

/// The table of the Fibonacci numbers a `u64` can hold has ninety-two entries.
proof fn lemma_table_u64(t: Seq<u64>)
    requires
        is_fib_table(t, 18446744073709551615),
    ensures
        t.len() == 92,
        fib(92) > 18446744073709551615,
{
    lemma_fib_width_values();
    lemma_fib_table_len(t, 18446744073709551615, 92);
}

impl EncodeOne for u64 {
    open spec fn enc_val(self) -> nat {
        self as nat
    }

    open spec fn max_code_len() -> nat {
        93
    }

    fn fib_encode_mut(self, vec: &mut bit_vec::BitVec) -> (r: Result<(), EncodeError<u64>>) {
        let table = generate(18446744073709551615);
        proof {
            lemma_table_u64(table@);
        }
        match bits_from_table(self as u64, &table, vec) {
            Ok(()) => Ok(()),
            Err(EncodeError::ValueTooSmall(_)) => Err(EncodeError::ValueTooSmall(self)),
            Err(EncodeError::Underflow(_)) => Err(EncodeError::Underflow(self)),
        }
    }

    fn fib_encode(self) -> (r: Result<bit_vec::BitVec, EncodeError<u64>>) {
        let mut vec = bitvec_new();
        let res = self.fib_encode_mut(&mut vec);
        proof {
            assert(bits_of(vec).skip(0) =~= bits_of(vec));
        }
        match res {
            Ok(()) => Ok(vec),
            Err(e) => Err(e),
        }
    }
}

impl Encode<u64> for Vec<u64> {
    open spec fn enc_elems(self) -> Seq<u64> {
        self@
    }

    open spec fn elem_val(x: u64) -> nat {
        x as nat
    }

    open spec fn elem_max_code_len() -> nat {
        93
    }

    fn fib_encode_mut(self, vec: &mut bit_vec::BitVec) -> (r: Result<(), ElementEncodeError<u64>>) {
        let table = generate(18446744073709551615);
        proof {
            lemma_table_u64(table@);
            assert(bits_of(*vec).take(bits_of(*vec).len() as int) =~= bits_of(*vec));
            assert(appended(bits_of(*vec), bits_of(*vec)) =~= Seq::<bool>::empty());
            assert(self@.take(0).map_values(|x: u64| x as nat) =~= Seq::<nat>::empty());
            assert(is_codeword_concat(Seq::<bool>::empty(), Seq::<nat>::empty()));
        }
        let mut idx: usize = 0;
        while idx < self.len()
            invariant
                idx <= self@.len(),
                is_fib_table(table@, 18446744073709551615),
                table@.len() == 92,
                fib(92) > 18446744073709551615,
                bits_of(*old(vec)).len() + self@.len() * 93 <= usize::MAX,
                extends(bits_of(*old(vec)), bits_of(*vec)),
                bits_of(*vec).len() <= bits_of(*old(vec)).len() + idx * 93,
                forall|j: int| 0 <= j < idx ==> self@[j] != 0,
                is_codeword_concat(
                    appended(bits_of(*old(vec)), bits_of(*vec)),
                    self@.take(idx as int).map_values(|x: u64| x as nat),
                ),
            decreases self@.len() - idx,
        {
            let elt = self[idx];
            let ghost pre = bits_of(*vec);
            let ghost oldb = bits_of(*old(vec));
            match bits_from_table(elt as u64, &table, vec) {
                Ok(()) => {
                    proof {
                        let a1 = appended(oldb, pre);
                        let w = appended(pre, bits_of(*vec));
                        lemma_codeword_concat_snoc(
                            a1,
                            self@.take(idx as int).map_values(|x: u64| x as nat),
                            w,
                            elt as nat,
                        );
                        assert(appended(oldb, bits_of(*vec)) =~= a1 + w);
                        assert(self@.take(idx as int + 1).map_values(|x: u64| x as nat)
                            =~= self@.take(idx as int).map_values(|x: u64| x as nat).push(
                            elt as nat,
                        ));
                        assert(bits_of(*vec).take(oldb.len() as int) =~= oldb);
                    }
                },
                Err(_) => {
                    proof {
                        assert(self@[idx as int] == 0);
                        assert(Self::elem_val(self.enc_elems()[idx as int]) == 0);
                        assert(self@.take(idx as int).map_values(|x: u64| x as nat)
                            =~= self@.take(idx as int).map_values(|x: u64| Self::elem_val(x)));
                    }
                    return Err(
                        ElementEncodeError { index: idx, error: EncodeError::ValueTooSmall(elt) },
                    );
                },
            }
            idx = idx + 1;
        }
        proof {
            assert(self@.take(self@.len() as int) =~= self@);
            assert(self@.map_values(|x: u64| x as nat) =~= self@.map_values(
                |x: u64| Self::elem_val(x),
            ));
        }
        Ok(())
    }

    fn fib_encode(self) -> (r: Result<bit_vec::BitVec, ElementEncodeError<u64>>) {
        let mut vec = bitvec_new();
        let res = self.fib_encode_mut(&mut vec);
        proof {
            assert(bits_of(vec).skip(0) =~= bits_of(vec));
        }
        match res {
            Ok(()) => Ok(vec),
            Err(e) => Err(e),
        }
    }
}

/// An iterator-like cursor that yields Fibonacci-decoded `u64` integers.
pub struct DecodeIterU64 {
    bits: Vec<bool>,
    pos: usize,
    table: Vec<u64>,
}

impl DecodeIterU64 {
    /// The bit stream being decoded.
    pub closed spec fn stream(self) -> Seq<bool> {
        self.bits@
    }

    /// How many bits are consumed so far.
    pub closed spec fn cursor(self) -> int {
        self.pos as int
    }

    /// The table is the width's own and the cursor is inside the stream.
    pub closed spec fn wf(self) -> bool {
        is_fib_table(self.table@, 18446744073709551615) && self.pos <= self.bits@.len()
    }

    /// Decodes the next value from the stream: `Ok` for a value closed by
    /// the next terminator, an error when the value outgrows `u64` (the
    /// cursor then skips past the next terminator), `None` at exhaustion.
    pub fn next(&mut self) -> (r: Option<Result<u64, DecodeError>>)
        requires
            old(self).wf(),
        ensures
            final(self).wf(),
            final(self).stream() == old(self).stream(),
            old(self).cursor() <= final(self).cursor() <= final(self).stream().len(),
            final(self).cursor() == step_pos(old(self).stream(), old(self).cursor(), 92, 18446744073709551615),
            match step_spec(old(self).stream(), old(self).cursor(), 92, 18446744073709551615) {
                None => r is None,
                Some(Ok(v)) => r == Some(Result::<u64, DecodeError>::Ok(v as u64)) && v <= 18446744073709551615,
                Some(Err(e)) => r == Some(Result::<u64, DecodeError>::Err(e)),
            },
    {
        proof {
            lemma_table_u64(self.table@);
        }
        let mut p = self.pos;
        let out = decode_from(&self.bits, &mut p, &self.table, 18446744073709551615);
        self.pos = p;
        match out {
            None => None,
            Some(Ok(v)) => Some(Ok(v as u64)),
            Some(Err(e)) => Some(Err(e)),
        }
    }
}

/// Returns a cursor that consumes the bits of `collection` and
/// Fibonacci-decodes them into `u64` integers.
pub fn fib_decode_u64(collection: bit_vec::BitVec) -> (r: DecodeIterU64)
    ensures
        r.wf(),
        r.stream() == bits_of(collection),
        r.cursor() == 0,
{
    DecodeIterU64 { bits: bitvec_to_bools(&collection), pos: 0, table: generate(18446744073709551615) }
}

} // verus!
