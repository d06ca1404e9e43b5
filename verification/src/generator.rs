//! Builders for the text of the per-width table modules.  Writing the text
//! out is the caller's business; everything here only computes strings.

use vstd::prelude::*;

verus! {

/// The character of one decimal digit.
pub open spec fn digit_char(d: nat) -> char {
    if d == 0 {
        '0'
    } else if d == 1 {
        '1'
    } else if d == 2 {
        '2'
    } else if d == 3 {
        '3'
    } else if d == 4 {
        '4'
    } else if d == 5 {
        '5'
    } else if d == 6 {
        '6'
    } else if d == 7 {
        '7'
    } else if d == 8 {
        '8'
    } else {
        '9'
    }
}

/// The decimal digits of `n`, most significant first.
pub open spec fn dec_digits(n: nat) -> Seq<char>
    decreases n,
{
    if n < 10 {
        seq![digit_char(n)]
    } else {
        dec_digits(n / 10).push(digit_char(n % 10))
    }
}

/// The table entries as they are listed between brackets, separated by
/// comma and space.
pub open spec fn table_items(t: Seq<u64>) -> Seq<char>
    decreases t.len(),
{
    if t.len() == 0 {
        Seq::empty()
    } else if t.len() == 1 {
        dec_digits(t[0] as nat)
    } else {
        table_items(t.drop_last()) + ", "@ + dec_digits(t.last() as nat)
    }
}

/// The line that asks the width macro to lay down one integer type's
/// encoder, decoder and table.
pub open spec fn encode_impl_line(name: Seq<char>, t: Seq<u64>) -> Seq<char> {
    "impl_fib_encode_for_integral_type!("@ + name + ", \""@ + name + "\", DecodeIter, fib_decode_"@
        + name + ", ["@ + table_items(t) + "]);\n"@
}

/// One line of the decoder-function module, for one type name.
pub open spec fn decoder_line(name: Seq<char>) -> Seq<char> {
    "    impl_decoder!("@ + name + ", \""@ + name + "\", fib_decode_"@ + name + ");\n"@
}

pub open spec fn decoder_lines(names: Seq<Seq<char>>) -> Seq<char>
    decreases names.len(),
{
    if names.len() == 0 {
        Seq::empty()
    } else {
        decoder_line(names[0]) + decoder_lines(names.drop_first())
    }
}

/// The module that gathers the decoder functions, one line per type name.
pub open spec fn decode_wrapper_text(names: Seq<Seq<char>>) -> Seq<char> {
    "\npub(crate) mod funcs {\n"@ + decoder_lines(names) + "}\n"@
}

proof fn lemma_decoder_lines_snoc(names: Seq<Seq<char>>, x: Seq<char>)
    ensures
        decoder_lines(names.push(x)) == decoder_lines(names) + decoder_line(x),
    decreases names.len(),
{
    if names.len() == 0 {
        assert(names.push(x).drop_first() =~= Seq::<Seq<char>>::empty());
        assert(names.push(x)[0] == x);
        assert(decoder_lines(Seq::<Seq<char>>::empty()) == Seq::<char>::empty());
        assert(decoder_lines(names.push(x)) =~= decoder_lines(names) + decoder_line(x));
    } else {
        assert(names.push(x).drop_first() =~= names.drop_first().push(x));
        lemma_decoder_lines_snoc(names.drop_first(), x);
        assert(decoder_lines(names.push(x)) =~= decoder_lines(names) + decoder_line(x));
    }
}

/// Relies on str::chars, which yields the characters in order.
#[verifier::external_body]
fn str_chars(s: &str) -> (r: Vec<char>)
    ensures
        r@ == s@,
{
    s.chars().collect()
}

/// Relies on String: FromIterator<char>: collecting characters builds the
/// string of exactly those characters, in order.
#[verifier::external_body]
fn chars_to_string(cs: Vec<char>) -> (r: String)
    ensures
        r@ == cs@,
{
    cs.into_iter().collect()
}

fn push_str_chars(buf: &mut Vec<char>, s: &str)
    ensures
        final(buf)@ == old(buf)@ + s@,
{
    let cs = str_chars(s);
    let mut i: usize = 0;
    while i < cs.len()
        invariant
            i <= cs@.len(),
            cs@ == s@,
            buf@ == old(buf)@ + s@.take(i as int),
        decreases cs@.len() - i,
    {
        buf.push(cs[i]);
        proof {
            assert(s@.take(i + 1) =~= s@.take(i as int).push(s@[i as int]));
        }
        i = i + 1;
    }
    proof {
        assert(s@.take(s@.len() as int) =~= s@);
        assert(final(buf)@ =~= old(buf)@ + s@);
    }
}

fn digit_of(d: u64) -> (c: char)
    requires
        d < 10,
    ensures
        c == digit_char(d as nat),
{
    if d == 0 {
        '0'
    } else if d == 1 {
        '1'
    } else if d == 2 {
        '2'
    } else if d == 3 {
        '3'
    } else if d == 4 {
        '4'
    } else if d == 5 {
        '5'
    } else if d == 6 {
        '6'
    } else if d == 7 {
        '7'
    } else if d == 8 {
        '8'
    } else {
        '9'
    }
}

fn push_decimal(buf: &mut Vec<char>, n: u64)
    ensures
        final(buf)@ == old(buf)@ + dec_digits(n as nat),
    decreases n,
{
    if n >= 10 {
        push_decimal(buf, n / 10);
    }
    buf.push(digit_of(n % 10));
    proof {
        if n < 10 {
            assert(final(buf)@ =~= old(buf)@ + dec_digits(n as nat));
        } else {
            assert(final(buf)@ =~= old(buf)@ + dec_digits(n as nat));
        }
    }
}

/// The text that lays down one width's encoder, decoder and table: the
/// width macro applied to the type's name and its Fibonacci table.
pub fn write_out(t_name: &str, table: &Vec<u64>) -> (r: String)
    ensures
        r@ == encode_impl_line(t_name@, table@),
{
    let mut buf: Vec<char> = Vec::new();
    push_str_chars(&mut buf, "impl_fib_encode_for_integral_type!(");
    push_str_chars(&mut buf, t_name);
    push_str_chars(&mut buf, ", \"");
    push_str_chars(&mut buf, t_name);
    push_str_chars(&mut buf, "\", DecodeIter, fib_decode_");
    push_str_chars(&mut buf, t_name);
    push_str_chars(&mut buf, ", [");
    let mut i: usize = 0;
    let ghost items_start = buf@;
    while i < table.len()
        invariant
            i <= table@.len(),
            buf@ == items_start + table_items(table@.take(i as int)),
        decreases table@.len() - i,
    {
        if i > 0 {
            push_str_chars(&mut buf, ", ");
        }
        push_decimal(&mut buf, table[i]);
        proof {
            let part = table@.take(i + 1);
            assert(part.drop_last() =~= table@.take(i as int));
            assert(part.last() == table@[i as int]);
            assert(buf@ =~= items_start + table_items(part));
        }
        i = i + 1;
    }
    proof {
        assert(table@.take(table@.len() as int) =~= table@);
    }
    push_str_chars(&mut buf, "]);\n");
    proof {
        assert(buf@ =~= encode_impl_line(t_name@, table@));
    }
    chars_to_string(buf)
}

/// The text of the module that gathers the decoder functions, one
/// `impl_decoder!` line per type name.
pub fn write_decode_wrapper(t_names: &Vec<String>) -> (r: String)
    ensures
        r@ == decode_wrapper_text(t_names@.map_values(|s: String| s@)),
{
    let ghost names = t_names@.map_values(|s: String| s@);
    let mut buf: Vec<char> = Vec::new();
    push_str_chars(&mut buf, "\npub(crate) mod funcs {\n");
    let ghost head = buf@;
    let mut i: usize = 0;
    while i < t_names.len()
        invariant
            i <= t_names@.len(),
            names == t_names@.map_values(|s: String| s@),
            head == "\npub(crate) mod funcs {\n"@,
            buf@ == head + decoder_lines(names.take(i as int)),
        decreases t_names@.len() - i,
    {
        push_str_chars(&mut buf, "    impl_decoder!(");
        push_str_chars(&mut buf, t_names[i].as_str());
        push_str_chars(&mut buf, ", \"");
        push_str_chars(&mut buf, t_names[i].as_str());
        push_str_chars(&mut buf, "\", fib_decode_");
        push_str_chars(&mut buf, t_names[i].as_str());
        push_str_chars(&mut buf, ");\n");
        proof {
            lemma_decoder_lines_snoc(names.take(i as int), names[i as int]);
            assert(names.take(i + 1) =~= names.take(i as int).push(names[i as int]));
            assert(buf@ =~= head + decoder_lines(names.take(i + 1)));
        }
        i = i + 1;
    }
    proof {
        assert(names.take(names.len() as int) =~= names);
    }
    push_str_chars(&mut buf, "}\n");
    proof {
        assert(buf@ =~= decode_wrapper_text(names));
    }
    chars_to_string(buf)
}

} // verus!
