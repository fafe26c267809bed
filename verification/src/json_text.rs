use vstd::prelude::*;
use vstd::std_specs::iter::IteratorSpec;

verus! {

/// Whitespace the snapshot grammar skips between tokens.
pub open spec fn is_ws_char(c: char) -> bool {
    c == ' ' || c == '\t' || c == '\n' || c == '\r'
}

pub open spec fn is_digit_char(c: char) -> bool {
    '0' <= c && c <= '9'
}

pub open spec fn digit_val(c: char) -> int {
    c as u32 - '0' as u32
}

/// The digit character for a value below sixteen, lower case.
pub open spec fn hexdig(n: int) -> char {
    if n == 0 {
        '0'
    } else if n == 1 {
        '1'
    } else if n == 2 {
        '2'
    } else if n == 3 {
        '3'
    } else if n == 4 {
        '4'
    } else if n == 5 {
        '5'
    } else if n == 6 {
        '6'
    } else if n == 7 {
        '7'
    } else if n == 8 {
        '8'
    } else if n == 9 {
        '9'
    } else if n == 10 {
        'a'
    } else if n == 11 {
        'b'
    } else if n == 12 {
        'c'
    } else if n == 13 {
        'd'
    } else if n == 14 {
        'e'
    } else {
        'f'
    }
}

/// The value of a hexadecimal digit, or -1 for any other character.
pub open spec fn hex_val(c: char) -> int {
    if '0' <= c && c <= '9' {
        c as u32 - '0' as u32
    } else if 'a' <= c && c <= 'f' {
        c as u32 - 'a' as u32 + 10
    } else if 'A' <= c && c <= 'F' {
        c as u32 - 'A' as u32 + 10
    } else {
        -1
    }
}

/// How one character is written inside a JSON string literal.
pub open spec fn escape_char(c: char) -> Seq<char> {
    if c == '"' {
        seq!['\\', '"']
    } else if c == '\\' {
        seq!['\\', '\\']
    } else if c == '\n' {
        seq!['\\', 'n']
    } else if c == '\r' {
        seq!['\\', 'r']
    } else if c == '\t' {
        seq!['\\', 't']
    } else if (c as u32) < 0x20 {
        seq!['\\', 'u', '0', '0', hexdig(c as u32 as int / 16), hexdig(c as u32 as int % 16)]
    } else {
        seq![c]
    }
}

/// A text written inside a JSON string literal, character by character.
pub open spec fn escape_seq(s: Seq<char>) -> Seq<char>
    decreases s.len(),
{
    if s.len() == 0 {
        Seq::empty()
    } else {
        escape_char(s[0]) + escape_seq(s.drop_first())
    }
}

/// A JSON string literal: quotes around the escaped text.
pub open spec fn json_quoted(s: Seq<char>) -> Seq<char> {
    seq!['"'] + escape_seq(s) + seq!['"']
}

pub proof fn lemma_escape_push(s: Seq<char>, c: char)
    ensures
        escape_seq(s.push(c)) == escape_seq(s) + escape_char(c),
    decreases s.len(),
{
    let t = s.push(c);
    if s.len() == 0 {
        assert(t[0] == c);
        assert(t.drop_first() =~= Seq::<char>::empty());
        assert(escape_seq(t.drop_first()) == Seq::<char>::empty());
        assert(escape_seq(t) =~= escape_char(c));
        assert(escape_seq(s) + escape_char(c) =~= escape_char(c));
    } else {
        assert(t[0] == s[0]);
        assert(t.drop_first() =~= s.drop_first().push(c));
        lemma_escape_push(s.drop_first(), c);
        assert(escape_seq(t) == escape_char(s[0]) + (escape_seq(s.drop_first()) + escape_char(c)));
        assert(escape_char(s[0]) + (escape_seq(s.drop_first()) + escape_char(c)) =~= (escape_char(
            s[0],
        ) + escape_seq(s.drop_first())) + escape_char(c));
    }
}

/// The decimal digits of a natural number, most significant first.
pub open spec fn dec_digits(n: nat) -> Seq<char>
    decreases n,
{
    if n < 10 {
        seq![hexdig(n as int)]
    } else {
        dec_digits(n / 10).push(hexdig((n % 10) as int))
    }
}

/// How an integer is written in the snapshot: a minus sign for negative
/// values, then decimal digits without leading zeros.
pub open spec fn int_text(v: int) -> Seq<char> {
    if v < 0 {
        seq!['-'] + dec_digits((-v) as nat)
    } else {
        dec_digits(v as nat)
    }
}

/// The value of a sequence of decimal digit characters.
pub open spec fn digits_val_of(s: Seq<char>) -> int
    decreases s.len(),
{
    if s.len() == 0 {
        0
    } else {
        digits_val_of(s.drop_last()) * 10 + digit_val(s.last())
    }
}

pub proof fn lemma_dec_digits(n: nat)
    ensures
        dec_digits(n).len() >= 1,
        forall|i: int| 0 <= i < dec_digits(n).len() ==> is_digit_char(#[trigger] dec_digits(n)[i]),
        digits_val_of(dec_digits(n)) == n,
        n >= 1 ==> dec_digits(n)[0] != '0',
        n >= 10 ==> dec_digits(n).len() >= 2,
    decreases n,
{
    if n < 10 {
        let d = dec_digits(n);
        assert(d == seq![hexdig(n as int)]);
        assert(d.drop_last() =~= Seq::<char>::empty());
        assert(digits_val_of(d.drop_last()) == 0);
        assert(digit_val(hexdig(n as int)) == n);
        assert(is_digit_char(hexdig(n as int)));
    } else {
        lemma_dec_digits(n / 10);
        let d = dec_digits(n);
        let p = dec_digits(n / 10);
        assert(d == p.push(hexdig((n % 10) as int)));
        assert(d.drop_last() =~= p);
        assert(d.last() == hexdig((n % 10) as int));
        assert(digit_val(hexdig((n % 10) as int)) == n % 10);
        assert(digits_val_of(d) == (n / 10) * 10 + n % 10);
        assert((n / 10) * 10 + n % 10 == n) by (nonlinear_arith);
        assert forall|i: int| 0 <= i < d.len() implies is_digit_char(#[trigger] d[i]) by {
            if i < d.len() - 1 {
                assert(d[i] == p[i]);
            } else {
                assert(d[i] == hexdig((n % 10) as int));
                assert(0 <= n % 10 < 10);
            }
        }
        assert(d[0] == p[0]);
        assert(n / 10 >= 1);
    }
}

fn hexdig_x(n: u32) -> (c: char)
    requires
        n < 16,
    ensures
        c == hexdig(n as int),
{
    match n {
        0 => '0',
        1 => '1',
        2 => '2',
        3 => '3',
        4 => '4',
        5 => '5',
        6 => '6',
        7 => '7',
        8 => '8',
        9 => '9',
        10 => 'a',
        11 => 'b',
        12 => 'c',
        13 => 'd',
        14 => 'e',
        _ => 'f',
    }
}

/// Append the escaped form of `s` to `out`.
pub(crate) fn push_escaped(out: &mut Vec<char>, s: &Vec<char>)
    ensures
        final(out)@ == old(out)@ + escape_seq(s@),
{
    let ghost base = out@;
    let mut j: usize = 0;
    proof {
        assert(s@.subrange(0, 0) =~= Seq::<char>::empty());
        assert(out@ =~= base + escape_seq(s@.subrange(0, 0)));
    }
    while j < s.len()
        invariant
            j <= s@.len(),
            out@ == base + escape_seq(s@.subrange(0, j as int)),
        decreases s@.len() - j,
    {
        let c = s[j];
        let code = c as u32;
        if c == '"' {
            out.push('\\');
            out.push('"');
        } else if c == '\\' {
            out.push('\\');
            out.push('\\');
        } else if c == '\n' {
            out.push('\\');
            out.push('n');
        } else if c == '\r' {
            out.push('\\');
            out.push('r');
        } else if c == '\t' {
            out.push('\\');
            out.push('t');
        } else if code < 0x20 {
            out.push('\\');
            out.push('u');
            out.push('0');
            out.push('0');
            out.push(hexdig_x(code / 16));
            out.push(hexdig_x(code % 16));
        } else {
            out.push(c);
        }
        proof {
            let pre = s@.subrange(0, j as int);
            let post = s@.subrange(0, j as int + 1);
            assert(post =~= pre.push(c));
            lemma_escape_push(pre, c);
            assert(out@ =~= base + escape_seq(post));
        }
        j += 1;
    }
    proof {
        assert(s@.subrange(0, s@.len() as int) =~= s@);
    }
}

/// Append a JSON string literal holding `s` to `out`.
pub(crate) fn push_quoted(out: &mut Vec<char>, s: &Vec<char>)
    ensures
        final(out)@ == old(out)@ + json_quoted(s@),
{
    let ghost base = out@;
    out.push('"');
    push_escaped(out, s);
    out.push('"');
    proof {
        assert(out@ =~= base + json_quoted(s@));
    }
}

fn push_dec(out: &mut Vec<char>, n: u64)
    ensures
        final(out)@ == old(out)@ + dec_digits(n as nat),
    decreases n,
{
    if n < 10 {
        out.push(hexdig_x(n as u32));
        proof {
            assert(out@ =~= old(out)@ + dec_digits(n as nat));
        }
    } else {
        let ghost base = out@;
        push_dec(out, n / 10);
        out.push(hexdig_x((n % 10) as u32));
        proof {
            assert(n as nat / 10 == (n / 10) as nat);
            assert(n as nat % 10 == (n % 10) as nat);
            assert(out@ =~= base + dec_digits(n as nat));
        }
    }
}

/// Append the decimal form of `v` to `out`.
pub(crate) fn push_int(out: &mut Vec<char>, v: i64)
    ensures
        final(out)@ == old(out)@ + int_text(v as int),
{
    let ghost base = out@;
    if v < 0 {
        out.push('-');
        let m = (-(v as i128)) as u64;
        push_dec(out, m);
        proof {
            assert(m as nat == (-(v as int)) as nat);
            assert(out@ =~= base + int_text(v as int));
        }
    } else {
        push_dec(out, v as u64);
        proof {
            assert(v as u64 as nat == v as int as nat);
        }
    }
}

/// The characters of a string slice, in order, collected through std's
/// character iterator and proved against vstd's specification of it.
pub(crate) fn str_to_chars(s: &str) -> (r: Vec<char>)
    ensures
        r@ == s@,
{
    let mut it = s.chars();
    let mut r: Vec<char> = Vec::new();
    proof {
        vstd::string::axiom_spec_iter(s);
        assert(r@ + it.remaining() =~= s@);
    }
    loop
        invariant
            it.decrease() is Some,
            r@ + it.remaining() == s@,
        ensures
            r@ == s@,
        decreases it.decrease().unwrap(),
    {
        let ghost old_it = it;
        let ghost r0 = r@;
        match it.next() {
            Some(c) => {
                proof {
                    vstd::string::next_postcondition(&old_it, &it, Some(c));
                    assert(old_it.remaining().len() > 0);
                    assert(c == old_it.remaining()[0]);
                }
                r.push(c);
                proof {
                    assert(r@ + it.remaining() =~= r0 + old_it.remaining());
                }
            },
            None => {
                proof {
                    vstd::string::next_postcondition(&old_it, &it, None);
                    assert(old_it.remaining().len() == 0);
                    assert(r@ =~= s@);
                }
                break;
            },
        }
    }
    r
}

} // verus!
