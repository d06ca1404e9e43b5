use vstd::prelude::*;

use crate::decode::{find_pair, scan, skip_end, step_pos, step_spec, DecodeError};
use crate::fib::{
    fib,
    code_value,
    is_codeword_of,
    lemma_code_value_bit_ge,
    lemma_code_value_take_le,
    lemma_fib_mono,
};

verus! {

proof fn lemma_find_pair_bounds(s: Seq<bool>, last: bool, q: int)
    ensures
        match find_pair(s, last, q) {
            Some(j) => q <= j < s.len(),
            None => true,
        },
    decreases s.len() - q,
{
    if q < 0 || q >= s.len() {
    } else if last && s[q] {
    } else {
        lemma_find_pair_bounds(s, s[q], q + 1);
    }
}

/// One scanning step never moves the cursor backwards, stops inside the
/// stream, and consumes everything exactly when nothing more comes out.
proof fn lemma_scan_bounds(s: Seq<bool>, p: int, q: int, last: bool, L: int, M: nat)
    requires
        0 <= p <= q <= s.len(),
    ensures
        q <= scan(s, p, q, last, L, M).1 <= s.len(),
        scan(s, p, q, last, L, M).0 is Some ==> scan(s, p, q, last, L, M).1 > q,
        scan(s, p, q, last, L, M).0 is None ==> scan(s, p, q, last, L, M).1 == s.len(),
    decreases s.len() - q,
{
    if q < p || q >= s.len() {
    } else if last && s[q] {
    } else if q - p >= L || (s[q] && code_value(s.subrange(p, q + 1)) > M) {
        lemma_find_pair_bounds(s, s[q], q + 1);
    } else {
        lemma_scan_bounds(s, p, q + 1, s[q], L, M);
    }
}

/// One decoding step from inside the stream lands further right, and
/// consumes everything exactly when it yields nothing.
pub proof fn lemma_step_advances(s: Seq<bool>, p: int, L: int, M: nat)
    requires
        0 <= p <= s.len(),
    ensures
        p <= step_pos(s, p, L, M) <= s.len(),
        step_spec(s, p, L, M) is Some ==> step_pos(s, p, L, M) > p,
        step_spec(s, p, L, M) is None ==> step_pos(s, p, L, M) == s.len(),
{
    lemma_scan_bounds(s, p, p, false, L, M);
}

proof fn lemma_scan_codeword_from(
    s: Seq<bool>,
    p: int,
    w: Seq<bool>,
    n: nat,
    L: int,
    M: nat,
    q: int,
)
    requires
        is_codeword_of(w, n),
        0 <= p,
        p + w.len() <= s.len(),
        s.subrange(p, p + w.len()) == w,
        n <= M,
        fib(L as nat) > M,
        L >= 0,
        p <= q <= p + w.len() - 1,
    ensures
        scan(
            s,
            p,
            q,
            if q == p {
                false
            } else {
                s[q - 1]
            },
            L,
            M,
        ) == (Some(Result::<nat, DecodeError>::Ok(n)), p + w.len()),
    decreases p + w.len() - q,
{
    let len = w.len() as int;
    let last = if q == p {
        false
    } else {
        s[q - 1]
    };
    assert forall|t: int| 0 <= t < len implies s[p + t] == w[t] by {
        assert(s.subrange(p, p + len)[t] == s[p + t]);
    }
    let digits = w.take(len - 1);
    assert(digits[len - 2] == w[len - 2]);
    lemma_code_value_bit_ge(digits, len - 2);
    if q == p + len - 1 {
        assert(s[q] == w[len - 1]);
        assert(last == w[len - 2]);
        assert(s.subrange(p, q) =~= digits);
    } else {
        let d = q - p;
        // no terminator inside the digits
        if q > p {
            assert(!(w[d - 1] && w[d]));
        }
        assert(!(last && s[q]));
        // the table is long enough for every digit position
        assert(d < L) by {
            if d >= L {
                lemma_fib_mono(L as nat, d as nat);
                lemma_fib_mono(d as nat, (len - 2) as nat);
            }
        }
        // no partial sum outgrows the value itself
        assert(code_value(s.subrange(p, q + 1)) <= n) by {
            assert(s.subrange(p, q + 1) =~= digits.take(d + 1));
            lemma_code_value_take_le(digits, d + 1);
        }
        lemma_scan_codeword_from(s, p, w, n, L, M, q + 1);
    }
}

/// A decoding step that starts exactly at a code word of `n`, with `n` in
/// the width's range, returns `n` and consumes exactly the code word.
pub proof fn lemma_scan_codeword(s: Seq<bool>, p: int, w: Seq<bool>, n: nat, L: int, M: nat)
    requires
        is_codeword_of(w, n),
        0 <= p,
        p + w.len() <= s.len(),
        s.subrange(p, p + w.len()) == w,
        n <= M,
        fib(L as nat) > M,
        L >= 0,
    ensures
        step_spec(s, p, L, M) == Some(Result::<nat, DecodeError>::Ok(n)),
        step_pos(s, p, L, M) == p + w.len(),
{
    lemma_scan_codeword_from(s, p, w, n, L, M, p);
}

/// Everything that decoding the stream `s` from position `p` on yields, in
/// order: one entry per code word or overflow, until the bits run out.
pub open spec fn decode_all_from(s: Seq<bool>, p: int, L: int, M: nat) -> Seq<
    Result<nat, DecodeError>,
>
    decreases s.len() - p,
    when 0 <= p <= s.len()
    via decode_all_from_decreases
{
    match step_spec(s, p, L, M) {
        None => Seq::empty(),
        Some(res) => seq![res] + decode_all_from(s, step_pos(s, p, L, M), L, M),
    }
}

#[via_fn]
proof fn decode_all_from_decreases(s: Seq<bool>, p: int, L: int, M: nat) {
    lemma_step_advances(s, p, L, M);
}

proof fn lemma_find_pair_shift(s: Seq<bool>, k: int, last: bool, q: int)
    requires
        0 <= k <= q,
        k <= s.len(),
    ensures
        match find_pair(s, last, q) {
            Some(j) => find_pair(s.skip(k), last, q - k) == Some(j - k),
            None => find_pair(s.skip(k), last, q - k) is None,
        },
    decreases s.len() - q,
{
    if q >= s.len() {
    } else if last && s[q] {
        assert(s.skip(k)[q - k] == s[q]);
    } else {
        assert(s.skip(k)[q - k] == s[q]);
        lemma_find_pair_shift(s, k, s[q], q + 1);
    }
}

/// A decoding step does not look at the bits before the word it reads:
/// dropping them moves its result and cursor along unchanged.
proof fn lemma_scan_shift(s: Seq<bool>, k: int, p: int, q: int, last: bool, L: int, M: nat)
    requires
        0 <= k <= p <= q,
        k <= s.len(),
    ensures
        scan(s, p, q, last, L, M).0 == scan(s.skip(k), p - k, q - k, last, L, M).0,
        scan(s, p, q, last, L, M).1 == scan(s.skip(k), p - k, q - k, last, L, M).1 + k,
    decreases s.len() - q,
{
    let t = s.skip(k);
    if q >= s.len() {
    } else if last && s[q] {
        assert(t[q - k] == s[q]);
        assert(t.subrange(p - k, q - k) =~= s.subrange(p, q));
    } else {
        assert(t[q - k] == s[q]);
        assert(t.subrange(p - k, q - k + 1) =~= s.subrange(p, q + 1));
        if q - p >= L || (s[q] && code_value(s.subrange(p, q + 1)) > M) {
            lemma_find_pair_shift(s, k, s[q], q + 1);
        } else {
            lemma_scan_shift(s, k, p, q + 1, s[q], L, M);
        }
    }
}

proof fn lemma_decode_all_shift(s: Seq<bool>, k: int, p: int, L: int, M: nat)
    requires
        0 <= k <= p <= s.len(),
    ensures
        decode_all_from(s, p, L, M) == decode_all_from(s.skip(k), p - k, L, M),
    decreases s.len() - p,
{
    lemma_scan_shift(s, k, p, p, false, L, M);
    lemma_step_advances(s, p, L, M);
    match step_spec(s, p, L, M) {
        None => {
            assert(decode_all_from(s, p, L, M) =~= decode_all_from(s.skip(k), p - k, L, M));
        },
        Some(res) => {
            lemma_decode_all_shift(s, k, step_pos(s, p, L, M), L, M);
            assert(decode_all_from(s, p, L, M) =~= decode_all_from(s.skip(k), p - k, L, M));
        },
    }
}

/// Whatever follows it, a run of code words at the front of a stream
/// decodes to exactly its values, and what follows is decoded from its own
/// first bit on.
pub proof fn lemma_decode_all_prefix(a: Seq<bool>, vals: Seq<nat>, rest: Seq<bool>, L: int, M: nat)
    requires
        crate::fib::is_codeword_concat(a, vals),
        forall|j: int| 0 <= j < vals.len() ==> 1 <= #[trigger] vals[j] <= M,
        fib(L as nat) > M,
        L >= 0,
    ensures
        decode_all_from(a + rest, 0, L, M) == vals.map_values(
            |v: nat| Result::<nat, DecodeError>::Ok(v),
        ) + decode_all_from(rest, 0, L, M),
    decreases vals.len(),
{
    let s = a + rest;
    let f = |v: nat| Result::<nat, DecodeError>::Ok(v);
    if vals.len() == 0 {
        assert(s =~= rest);
        assert(vals.map_values(f) =~= Seq::<Result<nat, DecodeError>>::empty());
    } else {
        let k = choose|k: int|
            2 <= k <= a.len() && #[trigger] is_codeword_of(a.take(k), vals[0])
                && crate::fib::is_codeword_concat(a.skip(k), vals.drop_first());
        let w = a.take(k);
        assert(s.subrange(0, k) =~= w);
        assert(1 <= vals[0] <= M);
        lemma_scan_codeword(s, 0, w, vals[0], L, M);
        assert forall|j: int| 0 <= j < vals.drop_first().len() implies 1
            <= #[trigger] vals.drop_first()[j] <= M by {
            assert(vals.drop_first()[j] == vals[j + 1]);
        }
        lemma_decode_all_prefix(a.skip(k), vals.drop_first(), rest, L, M);
        lemma_decode_all_shift(s, k, k, L, M);
        assert(s.skip(k) =~= a.skip(k) + rest);
        assert(vals.map_values(f) =~= seq![f(vals[0])] + vals.drop_first().map_values(f));
        assert(decode_all_from(s, 0, L, M) =~= vals.map_values(f) + decode_all_from(
            rest,
            0,
            L,
            M,
        ));
    }
}

/// Law (sequence round trip): a stream that is exactly the code words of a
/// run of values the width can hold decodes back to those values, in order.
pub proof fn lemma_sequence_round_trip(s: Seq<bool>, vals: Seq<nat>, L: int, M: nat)
    requires
        crate::fib::is_codeword_concat(s, vals),
        forall|j: int| 0 <= j < vals.len() ==> 1 <= #[trigger] vals[j] <= M,
        fib(L as nat) > M,
        L >= 0,
    ensures
        decode_all_from(s, 0, L, M) == vals.map_values(
            |v: nat| Result::<nat, DecodeError>::Ok(v),
        ),
{
    lemma_decode_all_prefix(s, vals, Seq::empty(), L, M);
    assert(s + Seq::<bool>::empty() =~= s);
    assert(decode_all_from(Seq::<bool>::empty(), 0, L, M) =~= Seq::<Result<
        nat,
        DecodeError,
    >>::empty());
    assert(decode_all_from(s, 0, L, M) =~= vals.map_values(
        |v: nat| Result::<nat, DecodeError>::Ok(v),
    ));
}

/// Law (round trip): a single code word of a value the width can hold
/// decodes to exactly that one value.
pub proof fn lemma_round_trip(w: Seq<bool>, n: nat, L: int, M: nat)
    requires
        is_codeword_of(w, n),
        n <= M,
        fib(L as nat) > M,
        L >= 0,
    ensures
        decode_all_from(w, 0, L, M) == seq![Result::<nat, DecodeError>::Ok(n)],
{
    assert(w.subrange(0, w.len() as int) =~= w);
    lemma_scan_codeword(w, 0, w, n, L, M);
    assert(decode_all_from(w, w.len() as int, L, M) =~= Seq::<Result<nat, DecodeError>>::empty());
    assert(decode_all_from(w, 0, L, M) =~= seq![Result::<nat, DecodeError>::Ok(n)]);
}

proof fn lemma_scan_overflow_from(
    s: Seq<bool>,
    p: int,
    w: Seq<bool>,
    n: nat,
    L: int,
    M: nat,
    q: int,
)
    requires
        is_codeword_of(w, n),
        0 <= p,
        p + w.len() <= s.len(),
        s.subrange(p, p + w.len()) == w,
        n > M,
        L >= 0,
        p <= q <= p + w.len() - 2,
    ensures
        ({
            let r = scan(
                s,
                p,
                q,
                if q == p {
                    false
                } else {
                    s[q - 1]
                },
                L,
                M,
            ).0;
            r matches Some(e) && e is Err
        }),
    decreases p + w.len() - q,
{
    let len = w.len() as int;
    let last = if q == p {
        false
    } else {
        s[q - 1]
    };
    assert forall|t: int| 0 <= t < len implies s[p + t] == w[t] by {
        assert(s.subrange(p, p + len)[t] == s[p + t]);
    }
    let d = q - p;
    if q > p {
        assert(!(w[d - 1] && w[d]));
    }
    assert(!(last && s[q]));
    if d >= L {
    } else if s[q] && code_value(s.subrange(p, q + 1)) > M {
    } else {
        if q == p + len - 2 {
            // the top digit is set and brings the whole value, which is
            // already past the range: one of the two guards had to fire
            assert(s[q] == w[len - 2]);
            assert(s.subrange(p, q + 1) =~= w.take(len - 1));
            assert(false);
        } else {
            lemma_scan_overflow_from(s, p, w, n, L, M, q + 1);
        }
    }
}

/// Scanning a code word from its first bit, the first terminator pattern
/// in sight is the word's own: its digits hold no two set bits in a row.
proof fn lemma_first_pair_of_codeword(s: Seq<bool>, w: Seq<bool>, n: nat, q: int)
    requires
        is_codeword_of(w, n),
        w.len() <= s.len(),
        s.subrange(0, w.len() as int) == w,
        0 <= q <= w.len() - 1,
    ensures
        find_pair(
            s,
            if q == 0 {
                false
            } else {
                s[q - 1]
            },
            q,
        ) == Some(w.len() - 1),
    decreases w.len() - q,
{
    let len = w.len() as int;
    assert forall|t: int| 0 <= t < len implies s[t] == w[t] by {
        assert(s.subrange(0, len)[t] == s[t]);
    }
    let last = if q == 0 {
        false
    } else {
        s[q - 1]
    };
    if q == len - 1 {
        assert(last == w[len - 2]);
    } else {
        if q > 0 {
            assert(!(w[q - 1] && w[q]));
        }
        assert(!(last && s[q]));
        lemma_first_pair_of_codeword(s, w, n, q + 1);
    }
}

/// Law (width downcast): a stream that starts with the code word of a value
/// beyond the width's range never decodes there to a value: the first thing
/// out is one of the two overflow errors.
pub proof fn lemma_downcast_overflow(s: Seq<bool>, w: Seq<bool>, n: nat, L: int, M: nat)
    requires
        is_codeword_of(w, n),
        w.len() <= s.len(),
        s.subrange(0, w.len() as int) == w,
        n > M,
        L >= 0,
    ensures
        (step_spec(s, 0, L, M) matches Some(e) && e is Err),
        step_pos(s, 0, L, M) == w.len(),
{
    lemma_scan_overflow_from(s, 0, w, n, L, M, 0);
    lemma_scan_stops_at_pair(s, 0, 0, false, L, M);
    lemma_first_pair_of_codeword(s, w, n, 0);
}

/// A stream that ends in a terminator whose left neighbour is clear: past
/// its end, decoding can never be dragged, whatever stands before.
pub open spec fn resync_tail(u: Seq<bool>) -> bool {
    &&& u.len() >= 2
    &&& u[u.len() - 1]
    &&& u[u.len() - 2]
    &&& (u.len() >= 3 ==> !u[u.len() - 3])
}

proof fn lemma_find_pair_hits_end(u: Seq<bool>, last: bool, q: int)
    requires
        u.len() >= 2,
        u[u.len() - 1],
        u[u.len() - 2],
        0 <= q <= u.len() - 2,
    ensures
        (find_pair(u, last, q) matches Some(j) && q <= j <= u.len() - 1),
    decreases u.len() - q,
{
    if last && u[q] {
    } else if q == u.len() - 2 {
        assert(find_pair(u, u[q], q + 1) == Some(q + 1));
    } else {
        lemma_find_pair_hits_end(u, u[q], q + 1);
    }
}

proof fn lemma_find_pair_pair(s: Seq<bool>, last: bool, q: int)
    ensures
        (find_pair(s, last, q) matches Some(j) ==> s[j] && (if j == q {
            last
        } else {
            s[j - 1]
        })),
    decreases s.len() - q,
{
    if q < 0 || q >= s.len() {
    } else if last && s[q] {
    } else {
        lemma_find_pair_bounds(s, s[q], q + 1);
        lemma_find_pair_pair(s, s[q], q + 1);
    }
}

proof fn lemma_find_pair_append(u: Seq<bool>, v: Seq<bool>, last: bool, q: int)
    requires
        0 <= q,
        (find_pair(u, last, q) matches Some(j) && j < u.len()),
    ensures
        find_pair(u + v, last, q) == find_pair(u, last, q),
    decreases u.len() - q,
{
    assert((u + v)[q] == u[q]);
    if last && u[q] {
    } else {
        lemma_find_pair_append(u, v, u[q], q + 1);
    }
}

/// Decoding inside a stream with a clean tail neither changes nor reaches
/// beyond that tail when more bits are appended: each step stops inside the
/// stream, and never right before its last bit.
proof fn lemma_scan_append(u: Seq<bool>, v: Seq<bool>, p: int, q: int, last: bool, L: int, M: nat)
    requires
        resync_tail(u),
        0 <= p <= u.len() - 2,
        p <= q <= u.len() - 1,
        last == (if q == p {
            false
        } else {
            u[q - 1]
        }),
    ensures
        scan(u, p, q, last, L, M).0 == scan(u + v, p, q, last, L, M).0,
        scan(u, p, q, last, L, M).0 is Some,
        scan(u, p, q, last, L, M).1 == scan(u + v, p, q, last, L, M).1,
        p < scan(u, p, q, last, L, M).1 <= u.len(),
        scan(u, p, q, last, L, M).1 != u.len() - 1,
    decreases u.len() - q,
{
    let s = u + v;
    let len = u.len() as int;
    assert(s[q] == u[q]);
    if last && u[q] {
        assert(s.subrange(p, q) =~= u.subrange(p, q));
        // a pair ending right before the final two bits would need the
        // clear bit before them set
        assert(q + 1 != len - 1);
    } else if q == len - 1 {
        // the final pair always stops the scan: the bit before the last is
        // set, so `last` holds here
        assert(false);
    } else if q - p >= L || (u[q] && code_value(u.subrange(p, q + 1)) > M) {
        assert(s.subrange(p, q + 1) =~= u.subrange(p, q + 1));
        if q + 1 <= len - 2 {
            lemma_find_pair_hits_end(u, u[q], q + 1);
            lemma_find_pair_append(u, v, u[q], q + 1);
            lemma_find_pair_pair(u, u[q], q + 1);
            let j = find_pair(u, u[q], q + 1)->Some_0;
            assert(j != len - 2);
        } else {
            // the failing bit is the one before the terminator, itself set
            assert(q == len - 2);
            assert(find_pair(u, u[q], q + 1) == Some(len - 1));
            assert(find_pair(s, u[q], q + 1) == Some(len - 1));
        }
    } else {
        assert(s.subrange(p, q + 1) =~= u.subrange(p, q + 1));
        lemma_scan_append(u, v, p, q + 1, u[q], L, M);
    }
}

/// Decoding runs through a stream with a clean tail and lands exactly at
/// its end, whatever bits follow; from there on only the appended bits
/// speak.
proof fn lemma_decode_all_append(u: Seq<bool>, v: Seq<bool>, p: int, L: int, M: nat)
    requires
        resync_tail(u),
        0 <= p <= u.len(),
        p != u.len() - 1,
    ensures
        decode_all_from(u + v, p, L, M) == decode_all_from(u, p, L, M) + decode_all_from(
            u + v,
            u.len() as int,
            L,
            M,
        ),
    decreases u.len() - p,
{
    let s = u + v;
    let len = u.len() as int;
    if p == len {
        assert(decode_all_from(u, p, L, M) =~= Seq::<Result<nat, DecodeError>>::empty());
        assert(decode_all_from(s, p, L, M) =~= decode_all_from(u, p, L, M) + decode_all_from(
            s,
            len,
            L,
            M,
        ));
    } else {
        lemma_scan_append(u, v, p, p, false, L, M);
        let p2 = step_pos(u, p, L, M);
        lemma_decode_all_append(u, v, p2, L, M);
        assert(decode_all_from(s, p, L, M) =~= decode_all_from(u, p, L, M) + decode_all_from(
            s,
            len,
            L,
            M,
        ));
    }
}

/// Wherever a decoding step starts, it stops right after the first
/// terminator pattern it can see, or at the end of the stream.
proof fn lemma_scan_stops_at_pair(s: Seq<bool>, p: int, q: int, last: bool, L: int, M: nat)
    requires
        0 <= p <= q,
    ensures
        scan(s, p, q, last, L, M).1 == skip_end(s, last, q),
    decreases s.len() - q,
{
    if q >= s.len() {
    } else if last && s[q] {
    } else if q - p >= L || (s[q] && code_value(s.subrange(p, q + 1)) > M) {
    } else {
        lemma_scan_stops_at_pair(s, p, q + 1, s[q], L, M);
    }
}

/// A fresh decoding step stops only past a true pair of set bits.
proof fn lemma_fresh_stop_is_pair(s: Seq<bool>, p: int, L: int, M: nat)
    requires
        0 <= p <= s.len(),
    ensures
        step_pos(s, p, L, M) == skip_end(s, false, p),
        match find_pair(s, false, p) {
            Some(j) => p < j < s.len() && s[j - 1] && s[j],
            None => step_pos(s, p, L, M) == s.len(),
        },
{
    lemma_scan_stops_at_pair(s, p, p, false, L, M);
    lemma_find_pair_bounds(s, false, p);
    lemma_find_pair_pair(s, false, p);
}

/// A code word of a value of at least two is at least three bits long, and
/// the bit before its final two set bits is clear.
proof fn lemma_codeword_tail(w: Seq<bool>, n: nat)
    requires
        is_codeword_of(w, n),
        n >= 2,
    ensures
        w.len() >= 3,
        !w[w.len() - 3],
{
    if w.len() == 2 {
        let d = w.take(1);
        assert(d =~= seq![w[0]]);
        assert(d.drop_last() =~= Seq::<bool>::empty());
        assert(code_value(Seq::<bool>::empty()) == 0);
        assert(code_value(d) == 1);
    }
    assert(!(w[w.len() - 3] && w[w.len() - 2]));
}

/// Law (self-synchronization, counting half): flip one bit of a code word
/// and the stretch of that word and the word after it decodes to at most
/// three entries, in place of the clean stream's two — one flipped bit
/// never floods the region with spurious values.  The word after the flip
/// must again encode a value of at least two.
pub proof fn lemma_single_flip_region_bound(
    ck: Seq<bool>,
    f: int,
    cnext: Seq<bool>,
    nk: nat,
    nnext: nat,
    L: int,
    M: nat,
)
    requires
        is_codeword_of(ck, nk),
        is_codeword_of(cnext, nnext),
        nnext >= 2,
        0 <= f < ck.len(),
    ensures
        decode_all_from(ck.update(f, !ck[f]) + cnext, 0, L, M).len() <= 3,
{
    let ckx = ck.update(f, !ck[f]);
    let x = ckx + cnext;
    let m = ck.len() as int;
    let cl = cnext.len() as int;
    let len = x.len() as int;
    lemma_codeword_tail(cnext, nnext);
    // every terminator pattern in the damaged stretch sits at one of five
    // spots: beside the flipped bit, at the damaged word's own terminator,
    // across the boundary, or at the following word's terminator
    assert forall|j: int|
        1 <= j < len && #[trigger] x[j - 1] && #[trigger] x[j] implies (j == f || j == f + 1 || j
        == m - 1 || j == m || j == m + cl - 1) by {
        if j <= m - 2 && j != f && j != f + 1 {
            assert(x[j - 1] == ck[j - 1]);
            assert(x[j] == ck[j]);
            assert(!(ck[j - 1] && ck[j]));
        }
        if m + 1 <= j && j <= m + cl - 2 {
            assert(x[j - 1] == cnext[j - 1 - m]);
            assert(x[j] == cnext[j - m]);
            assert(!(cnext[j - 1 - m] && cnext[j - m]));
        }
    }
    assert(decode_all_from(x, len, L, M) =~= Seq::<Result<nat, DecodeError>>::empty());
    lemma_step_advances(x, 0, L, M);
    if step_spec(x, 0, L, M) is Some {
        lemma_fresh_stop_is_pair(x, 0, L, M);
        let p1 = step_pos(x, 0, L, M);
        assert(decode_all_from(x, 0, L, M).len() == 1 + decode_all_from(x, p1, L, M).len());
        match find_pair(x, false, 0) {
            None => {
                assert(p1 == len);
                assert(decode_all_from(x, p1, L, M).len() == 0);
            },
            Some(j1) => {
                assert(p1 == j1 + 1);
                assert(x[j1 - 1] && x[j1]);
                lemma_step_advances(x, p1, L, M);
                if step_spec(x, p1, L, M) is Some {
                    lemma_fresh_stop_is_pair(x, p1, L, M);
                    let p2 = step_pos(x, p1, L, M);
                    assert(decode_all_from(x, p1, L, M).len() == 1 + decode_all_from(
                        x,
                        p2,
                        L,
                        M,
                    ).len());
                    match find_pair(x, false, p1) {
                        None => {
                            assert(p2 == len);
                            assert(decode_all_from(x, p2, L, M).len() == 0);
                        },
                        Some(j2) => {
                            assert(p2 == j2 + 1);
                            assert(x[j2 - 1] && x[j2]);
                            assert(j2 >= j1 + 2);
                            lemma_step_advances(x, p2, L, M);
                            if step_spec(x, p2, L, M) is Some {
                                lemma_fresh_stop_is_pair(x, p2, L, M);
                                let p3 = step_pos(x, p2, L, M);
                                assert(decode_all_from(x, p2, L, M).len() == 1 + decode_all_from(
                                    x,
                                    p3,
                                    L,
                                    M,
                                ).len());
                                match find_pair(x, false, p2) {
                                    None => {
                                        assert(p3 == len);
                                        assert(decode_all_from(x, p3, L, M).len() == 0);
                                    },
                                    Some(j3) => {
                                        assert(x[j3 - 1] && x[j3]);
                                        assert(j3 >= j2 + 2);
                                        // three patterns, each two past the
                                        // one before: only the last spot is
                                        // left for the third, at the very
                                        // end of the stretch
                                        assert(j3 == m + cl - 1);
                                        assert(p3 == len);
                                        assert(decode_all_from(x, p3, L, M).len() == 0);
                                    },
                                }
                            } else {
                                assert(decode_all_from(x, p2, L, M).len() == 0);
                            }
                        },
                    }
                } else {
                    assert(decode_all_from(x, p1, L, M).len() == 0);
                }
            },
        }
    } else {
        assert(decode_all_from(x, 0, L, M).len() == 0);
    }
}

/// Law (self-synchronization): replace the bits of one code word in the
/// middle of a stream — one flipped bit or any other same-length damage —
/// and every value before it, and every value after the code word that
/// follows it, decodes exactly as in the clean stream.  Only the stretch
/// covering the damaged word and the one word after it can read
/// differently.  The word after the damage must encode a value of at least
/// two: the two-bit code word of the value one can fuse with its neighbour
/// and carry the damage one value further.
pub proof fn lemma_self_synchronization(
    a: Seq<bool>,
    front: Seq<nat>,
    ck: Seq<bool>,
    ckx: Seq<bool>,
    cnext: Seq<bool>,
    nk: nat,
    nnext: nat,
    b: Seq<bool>,
    L: int,
    M: nat,
)
    requires
        crate::fib::is_codeword_concat(a, front),
        forall|j: int| 0 <= j < front.len() ==> 1 <= #[trigger] front[j] <= M,
        is_codeword_of(ck, nk),
        1 <= nk <= M,
        is_codeword_of(cnext, nnext),
        2 <= nnext <= M,
        ckx.len() == ck.len(),
        fib(L as nat) > M,
        L >= 0,
    ensures
        decode_all_from(a + ck + cnext + b, 0, L, M) == front.map_values(
            |x: nat| Result::<nat, DecodeError>::Ok(x),
        ) + seq![Result::<nat, DecodeError>::Ok(nk), Result::<nat, DecodeError>::Ok(nnext)]
            + decode_all_from(b, 0, L, M),
        decode_all_from(a + ckx + cnext + b, 0, L, M) == front.map_values(
            |x: nat| Result::<nat, DecodeError>::Ok(x),
        ) + decode_all_from(ckx + cnext, 0, L, M) + decode_all_from(b, 0, L, M),
{
    let f = |x: nat| Result::<nat, DecodeError>::Ok(x);
    lemma_codeword_tail(cnext, nnext);
    let cl = cnext.len() as int;

    // the damaged stream
    let u = a + ckx + cnext;
    assert(resync_tail(u)) by {
        assert(u[u.len() - 1] == cnext[cl - 1]);
        assert(u[u.len() - 2] == cnext[cl - 2]);
        assert(u[u.len() - 3] == cnext[cl - 3]);
    }
    assert(a + ckx + cnext + b =~= u + b);
    lemma_decode_all_append(u, b, 0, L, M);
    lemma_decode_all_shift(u + b, u.len() as int, u.len() as int, L, M);
    assert((u + b).skip(u.len() as int) =~= b);
    assert(u =~= a + (ckx + cnext));
    lemma_decode_all_prefix(a, front, ckx + cnext, L, M);
    assert(decode_all_from(a + ckx + cnext + b, 0, L, M) =~= front.map_values(f)
        + decode_all_from(ckx + cnext, 0, L, M) + decode_all_from(b, 0, L, M));

    // the clean stream
    let w = a + ck + cnext;
    let vals = front.push(nk).push(nnext);
    crate::fib::lemma_codeword_concat_snoc(a, front, ck, nk);
    crate::fib::lemma_codeword_concat_snoc(a + ck, front.push(nk), cnext, nnext);
    assert(resync_tail(w)) by {
        assert(w[w.len() - 1] == cnext[cl - 1]);
        assert(w[w.len() - 2] == cnext[cl - 2]);
        assert(w[w.len() - 3] == cnext[cl - 3]);
    }
    assert(a + ck + cnext + b =~= w + b);
    lemma_decode_all_append(w, b, 0, L, M);
    lemma_decode_all_shift(w + b, w.len() as int, w.len() as int, L, M);
    assert((w + b).skip(w.len() as int) =~= b);
    assert forall|j: int| 0 <= j < vals.len() implies 1 <= #[trigger] vals[j] <= M by {
        if j < front.len() {
            assert(vals[j] == front[j]);
        }
    }
    lemma_sequence_round_trip(w, vals, L, M);
    assert(vals.map_values(f) =~= front.map_values(f) + seq![f(nk), f(nnext)]);
    assert(decode_all_from(a + ck + cnext + b, 0, L, M) =~= front.map_values(f) + seq![
        f(nk),
        f(nnext),
    ] + decode_all_from(b, 0, L, M));
}

} // verus!
