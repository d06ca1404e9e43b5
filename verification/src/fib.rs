use vstd::prelude::*;

verus! {

/// The Fibonacci numbers as the coding uses them: `fib(0) == 1`,
/// `fib(1) == 2`, and every later entry the sum of the two before it.
pub open spec fn fib(i: nat) -> nat
    decreases i,
{
    if i == 0 {
        1
    } else if i == 1 {
        2
    } else {
        fib((i - 2) as nat) + fib((i - 1) as nat)
    }
}

pub proof fn lemma_fib_pos(i: nat)
    ensures
        fib(i) >= 1,
    decreases i,
{
    if i >= 2 {
        lemma_fib_pos((i - 1) as nat);
        lemma_fib_pos((i - 2) as nat);
    }
}

/// Consecutive Fibonacci numbers grow strictly.
pub proof fn lemma_fib_step(i: nat)
    ensures
        fib(i) < fib(i + 1),
{
    if i == 0 {
    } else {
        lemma_fib_pos((i - 1) as nat);
        assert(fib(i + 1) == fib((i - 1) as nat) + fib(i));
    }
}

/// The Fibonacci numbers are strictly increasing.
pub proof fn lemma_fib_mono(i: nat, j: nat)
    requires
        i <= j,
    ensures
        fib(i) <= fib(j),
        i < j ==> fib(i) < fib(j),
    decreases j - i,
{
    if i < j {
        lemma_fib_mono(i, (j - 1) as nat);
        lemma_fib_step((j - 1) as nat);
    }
}

/// A table holds the Fibonacci numbers in order, from `fib(0)` on.
pub open spec fn is_fib_prefix(t: Seq<u64>) -> bool {
    forall|i: int| 0 <= i < t.len() ==> #[trigger] t[i] as nat == fib(i as nat)
}

/// A table for a width whose largest value is `max`: the Fibonacci numbers
/// in order, exactly those that do not exceed `max`.
pub open spec fn is_fib_table(t: Seq<u64>, max: nat) -> bool {
    &&& is_fib_prefix(t)
    &&& t.len() >= 2
    &&& fib((t.len() - 1) as nat) <= max
    &&& fib(t.len() as nat) > max
}

/// The Fibonacci numbers on each side of the four widths' largest values:
/// `fib(11) <= u8::MAX < fib(12)`, and so on for the wider types.
pub proof fn lemma_fib_width_values()
    ensures
        fib(11) == 233,
        fib(12) == 377,
        fib(22) == 46368,
        fib(23) == 75025,
        fib(45) == 2971215073,
        fib(46) == 4807526976,
        fib(91) == 12200160415121876738,
        fib(92) == 19740274219868223167,
{
    // one step per line: each value follows from the two before it
    assert(fib(0) == 1);
    assert(fib(1) == 2);
    assert(fib(2) == 3);
    assert(fib(3) == 5);
    assert(fib(4) == 8);
    assert(fib(5) == 13);
    assert(fib(6) == 21);
    assert(fib(7) == 34);
    assert(fib(8) == 55);
    assert(fib(9) == 89);
    assert(fib(10) == 144);
    assert(fib(11) == 233);
    assert(fib(12) == 377);
    assert(fib(13) == 610);
    assert(fib(14) == 987);
    assert(fib(15) == 1597);
    assert(fib(16) == 2584);
    assert(fib(17) == 4181);
    assert(fib(18) == 6765);
    assert(fib(19) == 10946);
    assert(fib(20) == 17711);
    assert(fib(21) == 28657);
    assert(fib(22) == 46368);
    assert(fib(23) == 75025);
    assert(fib(24) == 121393);
    assert(fib(25) == 196418);
    assert(fib(26) == 317811);
    assert(fib(27) == 514229);
    assert(fib(28) == 832040);
    assert(fib(29) == 1346269);
    assert(fib(30) == 2178309);
    assert(fib(31) == 3524578);
    assert(fib(32) == 5702887);
    assert(fib(33) == 9227465);
    assert(fib(34) == 14930352);
    assert(fib(35) == 24157817);
    assert(fib(36) == 39088169);
    assert(fib(37) == 63245986);
    assert(fib(38) == 102334155);
    assert(fib(39) == 165580141);
    assert(fib(40) == 267914296);
    assert(fib(41) == 433494437);
    assert(fib(42) == 701408733);
    assert(fib(43) == 1134903170);
    assert(fib(44) == 1836311903);
    assert(fib(45) == 2971215073);
    assert(fib(46) == 4807526976);
    assert(fib(47) == 7778742049);
    assert(fib(48) == 12586269025);
    assert(fib(49) == 20365011074);
    assert(fib(50) == 32951280099);
    assert(fib(51) == 53316291173);
    assert(fib(52) == 86267571272);
    assert(fib(53) == 139583862445);
    assert(fib(54) == 225851433717);
    assert(fib(55) == 365435296162);
    assert(fib(56) == 591286729879);
    assert(fib(57) == 956722026041);
    assert(fib(58) == 1548008755920);
    assert(fib(59) == 2504730781961);
    assert(fib(60) == 4052739537881);
    assert(fib(61) == 6557470319842);
    assert(fib(62) == 10610209857723);
    assert(fib(63) == 17167680177565);
    assert(fib(64) == 27777890035288);
    assert(fib(65) == 44945570212853);
    assert(fib(66) == 72723460248141);
    assert(fib(67) == 117669030460994);
    assert(fib(68) == 190392490709135);
    assert(fib(69) == 308061521170129);
    assert(fib(70) == 498454011879264);
    assert(fib(71) == 806515533049393);
    assert(fib(72) == 1304969544928657);
    assert(fib(73) == 2111485077978050);
    assert(fib(74) == 3416454622906707);
    assert(fib(75) == 5527939700884757);
    assert(fib(76) == 8944394323791464);
    assert(fib(77) == 14472334024676221);
    assert(fib(78) == 23416728348467685);
    assert(fib(79) == 37889062373143906);
    assert(fib(80) == 61305790721611591);
    assert(fib(81) == 99194853094755497);
    assert(fib(82) == 160500643816367088);
    assert(fib(83) == 259695496911122585);
    assert(fib(84) == 420196140727489673);
    assert(fib(85) == 679891637638612258);
    assert(fib(86) == 1100087778366101931);
    assert(fib(87) == 1779979416004714189);
    assert(fib(88) == 2880067194370816120);
    assert(fib(89) == 4660046610375530309);
    assert(fib(90) == 7540113804746346429);
    assert(fib(91) == 12200160415121876738);
    assert(fib(92) == 19740274219868223167);
}

/// A width's table length is pinned by the Fibonacci numbers around its
/// largest value.
pub proof fn lemma_fib_table_len(t: Seq<u64>, max: nat, k: nat)
    requires
        is_fib_table(t, max),
        k >= 1,
        fib((k - 1) as nat) <= max,
        fib(k) > max,
    ensures
        t.len() == k,
{
    if t.len() < k {
        lemma_fib_mono(t.len() as nat, (k - 1) as nat);
    }
    if t.len() > k {
        lemma_fib_mono(k, (t.len() - 1) as nat);
    }
}

/// The value a run of digit bits stands for: the sum of `fib(i)` over the
/// positions `i` whose bit is set.
pub open spec fn code_value(digits: Seq<bool>) -> nat
    decreases digits.len(),
{
    if digits.len() == 0 {
        0
    } else {
        code_value(digits.drop_last()) + if digits.last() {
            fib((digits.len() - 1) as nat)
        } else {
            0nat
        }
    }
}

pub proof fn lemma_code_value_push(x: Seq<bool>, b: bool)
    ensures
        code_value(x.push(b)) == code_value(x) + if b {
            fib(x.len())
        } else {
            0nat
        },
{
    assert(x.push(b).drop_last() =~= x);
}

/// Dropping digits from the top can only lower the value.
pub proof fn lemma_code_value_take_le(x: Seq<bool>, k: int)
    requires
        0 <= k <= x.len(),
    ensures
        code_value(x.take(k)) <= code_value(x),
    decreases x.len() - k,
{
    if k == x.len() {
        assert(x.take(k) =~= x);
    } else {
        assert(x.take(k + 1) =~= x.take(k).push(x[k]));
        lemma_code_value_push(x.take(k), x[k]);
        lemma_code_value_take_le(x, k + 1);
    }
}

/// A set digit bit puts `fib` of its position into the value.
pub proof fn lemma_code_value_bit_ge(x: Seq<bool>, i: int)
    requires
        0 <= i < x.len(),
        x[i],
    ensures
        code_value(x) >= fib(i as nat),
    decreases x.len(),
{
    if i == x.len() - 1 {
    } else {
        assert(x.drop_last()[i] == x[i]);
        lemma_code_value_bit_ge(x.drop_last(), i);
    }
}

/// The code word of the value `n`: its Zeckendorf digits, least significant
/// first and the top digit set, followed by one more set bit, so that the
/// word ends in two set bits and no two digit bits are adjacent.
pub open spec fn is_codeword_of(w: Seq<bool>, n: nat) -> bool {
    &&& w.len() >= 2
    &&& w[w.len() - 1]
    &&& w[w.len() - 2]
    &&& forall|i: int| 0 <= i < w.len() - 2 ==> !(#[trigger] w[i] && w[i + 1])
    &&& code_value(w.take(w.len() - 1)) == n
}

/// No two adjacent digit bits are set.
pub open spec fn no_adjacent_bits(d: Seq<bool>) -> bool {
    forall|i: int| 0 <= i < d.len() - 1 ==> !(#[trigger] d[i] && d[i + 1])
}

/// Digits without adjacent set bits stay below the next Fibonacci number.
pub proof fn lemma_nonadjacent_bound(d: Seq<bool>)
    requires
        no_adjacent_bits(d),
    ensures
        code_value(d) < fib(d.len()),
    decreases d.len(),
{
    if d.len() == 0 {
    } else if d.len() == 1 {
        assert(code_value(d.drop_last()) == 0);
    } else {
        let d1 = d.drop_last();
        assert(no_adjacent_bits(d1)) by {
            assert(forall|i: int| 0 <= i < d1.len() ==> d1[i] == d[i]);
        }
        lemma_nonadjacent_bound(d1);
        if d.last() {
            // the digit under the top one is clear
            assert(!d1.last());
            let d2 = d1.drop_last();
            assert(no_adjacent_bits(d2)) by {
                assert(forall|i: int| 0 <= i < d2.len() ==> d2[i] == d[i]);
            }
            lemma_nonadjacent_bound(d2);
            assert(code_value(d1) == code_value(d2));
            assert(fib(d.len()) == fib((d.len() - 2) as nat) + fib((d.len() - 1) as nat));
        } else {
            lemma_fib_step((d.len() - 1) as nat);
        }
    }
}

/// Zeckendorf's theorem, uniqueness half: two digit runs of one length
/// without adjacent set bits and with one value are the same run.
pub proof fn lemma_zeckendorf_unique(d1: Seq<bool>, d2: Seq<bool>)
    requires
        d1.len() == d2.len(),
        no_adjacent_bits(d1),
        no_adjacent_bits(d2),
        code_value(d1) == code_value(d2),
    ensures
        d1 == d2,
    decreases d1.len(),
{
    if d1.len() == 0 {
        assert(d1 =~= d2);
    } else {
        let e1 = d1.drop_last();
        let e2 = d2.drop_last();
        assert(no_adjacent_bits(e1) && no_adjacent_bits(e2)) by {
            assert(forall|i: int| 0 <= i < e1.len() ==> e1[i] == d1[i]);
            assert(forall|i: int| 0 <= i < e2.len() ==> e2[i] == d2[i]);
        }
        assert(forall|i: int| 0 <= i < e1.len() ==> e1[i] == d1[i]);
        assert(forall|i: int| 0 <= i < e2.len() ==> e2[i] == d2[i]);
        if d1.last() != d2.last() {
            lemma_nonadjacent_bound(e1);
            lemma_nonadjacent_bound(e2);
            assert(false);
        } else {
            lemma_zeckendorf_unique(e1, e2);
            assert(d1 =~= d2);
        }
    }
}

/// A value has one code word only: whatever writes a code word of `n`
/// writes the same bits.
pub proof fn lemma_codeword_unique(w1: Seq<bool>, w2: Seq<bool>, n: nat)
    requires
        is_codeword_of(w1, n),
        is_codeword_of(w2, n),
    ensures
        w1 == w2,
{
    let d1 = w1.take(w1.len() - 1);
    let d2 = w2.take(w2.len() - 1);
    assert(no_adjacent_bits(d1)) by {
        assert(forall|i: int| 0 <= i < d1.len() ==> d1[i] == w1[i]);
    }
    assert(no_adjacent_bits(d2)) by {
        assert(forall|i: int| 0 <= i < d2.len() ==> d2[i] == w2[i]);
    }
    lemma_nonadjacent_bound(d1);
    lemma_nonadjacent_bound(d2);
    assert(d1[d1.len() - 1] == w1[w1.len() - 2]);
    assert(d2[d2.len() - 1] == w2[w2.len() - 2]);
    lemma_code_value_bit_ge(d1, d1.len() - 1);
    lemma_code_value_bit_ge(d2, d2.len() - 1);
    if w1.len() < w2.len() {
        lemma_fib_mono(d1.len() as nat, (d2.len() - 1) as nat);
        assert(false);
    }
    if w2.len() < w1.len() {
        lemma_fib_mono(d2.len() as nat, (d1.len() - 1) as nat);
        assert(false);
    }
    lemma_zeckendorf_unique(d1, d2);
    assert(forall|i: int| 0 <= i < d1.len() ==> d1[i] == w1[i]);
    assert(forall|i: int| 0 <= i < d2.len() ==> d2[i] == w2[i]);
    assert(w1 =~= w2);
}

/// A bit run that is exactly the code words of `vals`, one after the other.
pub open spec fn is_codeword_concat(s: Seq<bool>, vals: Seq<nat>) -> bool
    decreases vals.len(),
{
    if vals.len() == 0 {
        s.len() == 0
    } else {
        exists|k: int|
            2 <= k <= s.len() && #[trigger] is_codeword_of(s.take(k), vals[0])
                && is_codeword_concat(s.skip(k), vals.drop_first())
    }
}

/// One more code word at the end keeps a run of code words one.
pub proof fn lemma_codeword_concat_snoc(s: Seq<bool>, vals: Seq<nat>, w: Seq<bool>, n: nat)
    requires
        is_codeword_concat(s, vals),
        is_codeword_of(w, n),
    ensures
        is_codeword_concat(s + w, vals.push(n)),
    decreases vals.len(),
{
    if vals.len() == 0 {
        assert((s + w).take(w.len() as int) =~= w);
        assert((s + w).skip(w.len() as int) =~= Seq::<bool>::empty());
        assert(vals.push(n).drop_first() =~= Seq::<nat>::empty());
        assert(is_codeword_of((s + w).take(w.len() as int), vals.push(n)[0]));
        assert(is_codeword_concat((s + w).skip(w.len() as int), vals.push(n).drop_first()));
        assert(2 <= w.len() <= (s + w).len());
    } else {
        let k = choose|k: int|
            2 <= k <= s.len() && #[trigger] is_codeword_of(s.take(k), vals[0])
                && is_codeword_concat(s.skip(k), vals.drop_first());
        lemma_codeword_concat_snoc(s.skip(k), vals.drop_first(), w, n);
        assert((s + w).take(k) =~= s.take(k));
        assert((s + w).skip(k) =~= s.skip(k) + w);
        assert(vals.push(n).drop_first() =~= vals.drop_first().push(n));
        assert(vals.push(n)[0] == vals[0]);
        assert(is_codeword_of((s + w).take(k), vals.push(n)[0]));
        assert(is_codeword_concat((s + w).skip(k), vals.push(n).drop_first()));
    }
}

/// The table of all Fibonacci numbers up to `max`, in order.
pub fn generate(max: u64) -> (t: Vec<u64>)
    requires
        max >= 2,
    ensures
        is_fib_table(t@, max as nat),
{
    let mut t: Vec<u64> = Vec::new();
    t.push(1);
    t.push(2);
    loop
        invariant
            2 <= t@.len(),
            is_fib_prefix(t@),
            fib((t@.len() - 1) as nat) <= max as nat,
        ensures
            2 <= t@.len(),
            is_fib_prefix(t@),
            fib((t@.len() - 1) as nat) <= max as nat,
            fib(t@.len() as nat) > max as nat,
        decreases max - t@[t@.len() - 1],
    {
        let a = t[t.len() - 2];
        let b = t[t.len() - 1];
        proof {
            assert(fib(t@.len() as nat) == fib((t@.len() - 2) as nat) + fib((t@.len() - 1) as nat));
        }
        match a.checked_add(b) {
            Some(c) => {
                if c <= max {
                    t.push(c);
                    proof {
                        lemma_fib_step((t@.len() - 2) as nat);
                    }
                } else {
                    break;
                }
            },
            None => {
                break;
            },
        }
    }
    t
}

} // verus!
