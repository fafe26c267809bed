use vstd::prelude::*;

use crate::json_text::{
    digit_val, digits_val_of, hex_val, is_digit_char, is_ws_char,
};
use crate::trusted::char_from_u32;

verus! {

// ---------------------------------------------------------------------------
// The snapshot grammar, as spec functions over character sequences. The
// executable parser below is proved to return exactly what these define.
// ---------------------------------------------------------------------------

/// First position at or after `i` that does not hold whitespace.
pub open spec fn skip_ws(t: Seq<char>, i: int) -> int
    decreases t.len() - i,
{
    if 0 <= i < t.len() && is_ws_char(t[i]) {
        skip_ws(t, i + 1)
    } else {
        i
    }
}

/// The character a simple escape stands for.
pub open spec fn unescape_simple(e: char) -> char {
    if e == '"' {
        '"'
    } else if e == '\\' {
        '\\'
    } else if e == '/' {
        '/'
    } else if e == 'b' {
        '\u{8}'
    } else if e == 'f' {
        '\u{c}'
    } else if e == 'n' {
        '\n'
    } else if e == 'r' {
        '\r'
    } else {
        '\t'
    }
}

pub open spec fn is_simple_escape(e: char) -> bool {
    e == '"' || e == '\\' || e == '/' || e == 'b' || e == 'f' || e == 'n' || e == 'r' || e == 't'
}

pub open spec fn is_hex4(t: Seq<char>, i: int) -> bool {
    &&& 0 <= i && i + 4 <= t.len()
    &&& hex_val(t[i]) >= 0
    &&& hex_val(t[i + 1]) >= 0
    &&& hex_val(t[i + 2]) >= 0
    &&& hex_val(t[i + 3]) >= 0
}

pub open spec fn hex4_val(t: Seq<char>, i: int) -> int {
    hex_val(t[i]) * 0x1000 + hex_val(t[i + 1]) * 0x100 + hex_val(t[i + 2]) * 0x10 + hex_val(
        t[i + 3],
    )
}

/// The body of a JSON string literal, after the opening quote: the decoded
/// characters and the position after the closing quote.
pub open spec fn parse_string_body(t: Seq<char>, i: int) -> Option<(Seq<char>, int)>
    decreases t.len() - i,
{
    if !(0 <= i < t.len()) {
        None
    } else if t[i] == '"' {
        Some((Seq::empty(), i + 1))
    } else if t[i] == '\\' {
        if i + 1 < t.len() && is_simple_escape(t[i + 1]) {
            match parse_string_body(t, i + 2) {
                Some((rest, j)) => Some((seq![unescape_simple(t[i + 1])] + rest, j)),
                None => None,
            }
        } else if i + 1 < t.len() && t[i + 1] == 'u' && is_hex4(t, i + 2) {
            let n = hex4_val(t, i + 2);
            if n < 0xD800 || n > 0xDFFF {
                match parse_string_body(t, i + 6) {
                    Some((rest, j)) => Some((seq![((n as u32) as char)] + rest, j)),
                    None => None,
                }
            } else if n < 0xDC00 && i + 8 < t.len() && t[i + 6] == '\\' && t[i + 7] == 'u'
                && is_hex4(t, i + 8) && 0xDC00 <= hex4_val(t, i + 8) && hex4_val(t, i + 8)
                <= 0xDFFF {
                let cp = 0x10000 + (n - 0xD800) * 0x400 + (hex4_val(t, i + 8) - 0xDC00);
                match parse_string_body(t, i + 12) {
                    Some((rest, j)) => Some((seq![((cp as u32) as char)] + rest, j)),
                    None => None,
                }
            } else {
                None
            }
        } else {
            None
        }
    } else if (t[i] as u32) < 0x20 {
        None
    } else {
        match parse_string_body(t, i + 1) {
            Some((rest, j)) => Some((seq![t[i]] + rest, j)),
            None => None,
        }
    }
}

/// A JSON string literal at `i`: its decoded text and the position after
/// the closing quote.
pub open spec fn parse_string(t: Seq<char>, i: int) -> Option<(Seq<char>, int)> {
    if 0 <= i < t.len() && t[i] == '"' {
        parse_string_body(t, i + 1)
    } else {
        None
    }
}

/// End of the run of decimal digits starting at `i`.
pub open spec fn digits_end(t: Seq<char>, i: int) -> int
    decreases t.len() - i,
{
    if 0 <= i < t.len() && is_digit_char(t[i]) {
        digits_end(t, i + 1)
    } else {
        i
    }
}

pub proof fn lemma_digits_end(t: Seq<char>, i: int)
    requires
        0 <= i <= t.len(),
    ensures
        i <= digits_end(t, i) <= t.len(),
        digits_end(t, i) == t.len() || !is_digit_char(t[digits_end(t, i)]),
        forall|k: int| i <= k < digits_end(t, i) ==> is_digit_char(#[trigger] t[k]),
    decreases t.len() - i,
{
    if i < t.len() && is_digit_char(t[i]) {
        lemma_digits_end(t, i + 1);
    }
}

/// The optional fraction and exponent after a number's integer part, and
/// the number's value when it has neither: what the snapshot reader can use
/// as a timestamp. The value is reported only when it fits an i64, as the
/// reader's integer extraction demands.
pub open spec fn finish_number(t: Seq<char>, neg: bool, mag: int, p: int) -> Option<
    (Option<i64>, int),
> {
    let frac_end = if p < t.len() && t[p] == '.' {
        digits_end(t, p + 1)
    } else {
        p
    };
    if p < t.len() && t[p] == '.' && frac_end == p + 1 {
        None
    } else {
        let has_frac = frac_end != p;
        let e0 = frac_end;
        if e0 < t.len() && (t[e0] == 'e' || t[e0] == 'E') {
            let e1 = if e0 + 1 < t.len() && (t[e0 + 1] == '+' || t[e0 + 1] == '-') {
                e0 + 2
            } else {
                e0 + 1
            };
            let exp_end = digits_end(t, e1);
            if exp_end == e1 {
                None
            } else {
                Some((None, exp_end))
            }
        } else if has_frac {
            Some((None, e0))
        } else {
            let v = if neg {
                -mag
            } else {
                mag
            };
            if i64::MIN <= v <= i64::MAX {
                Some((Some(v as i64), e0))
            } else {
                Some((None, e0))
            }
        }
    }
}

/// A JSON number at `i`: its integer value when it is one that fits an
/// i64, and the position after it.
pub open spec fn parse_number(t: Seq<char>, i: int) -> Option<(Option<i64>, int)> {
    let neg = 0 <= i < t.len() && t[i] == '-';
    let j0 = if neg {
        i + 1
    } else {
        i
    };
    if !(0 <= j0 < t.len()) {
        None
    } else if t[j0] == '0' {
        finish_number(t, neg, 0, j0 + 1)
    } else if is_digit_char(t[j0]) {
        let e = digits_end(t, j0);
        finish_number(t, neg, digits_val_of(t.subrange(j0, e)), e)
    } else {
        None
    }
}

pub proof fn lemma_finish_number_bounds(t: Seq<char>, neg: bool, mag: int, p: int)
    requires
        0 <= p <= t.len(),
    ensures
        finish_number(t, neg, mag, p) is Some ==> p <= finish_number(
            t,
            neg,
            mag,
            p,
        ).unwrap().1 <= t.len(),
{
    if p < t.len() && t[p] == '.' {
        lemma_digits_end(t, p + 1);
    }
    let frac_end = if p < t.len() && t[p] == '.' {
        digits_end(t, p + 1)
    } else {
        p
    };
    if 0 <= frac_end <= t.len() && frac_end < t.len() && (t[frac_end] == 'e' || t[frac_end]
        == 'E') {
        let e1 = if frac_end + 1 < t.len() && (t[frac_end + 1] == '+' || t[frac_end + 1] == '-') {
            frac_end + 2
        } else {
            frac_end + 1
        };
        if e1 <= t.len() {
            lemma_digits_end(t, e1);
        }
    }
}


// ---------------------------------------------------------------------------
// Executable parsing primitives, each proved to return what the spec
// functions above define.
// ---------------------------------------------------------------------------

fn is_ws_x(c: char) -> (r: bool)
    ensures
        r == is_ws_char(c),
{
    c == ' ' || c == '\t' || c == '\n' || c == '\r'
}

fn skip_ws_x(t: &Vec<char>, i: usize) -> (r: usize)
    requires
        i <= t@.len(),
    ensures
        r == skip_ws(t@, i as int),
        i <= r <= t@.len(),
{
    let mut cur = i;
    while cur < t.len() && is_ws_x(t[cur])
        invariant
            i <= cur <= t@.len(),
            skip_ws(t@, i as int) == skip_ws(t@, cur as int),
        decreases t@.len() - cur,
    {
        cur = cur + 1;
    }
    proof {
        assert(skip_ws(t@, cur as int) == cur as int);
    }
    cur
}

fn unescape_simple_x(e: char) -> (r: char)
    ensures
        r == unescape_simple(e),
{
    if e == '"' {
        '"'
    } else if e == '\\' {
        '\\'
    } else if e == '/' {
        '/'
    } else if e == 'b' {
        '\u{8}'
    } else if e == 'f' {
        '\u{c}'
    } else if e == 'n' {
        '\n'
    } else if e == 'r' {
        '\r'
    } else {
        '\t'
    }
}

fn hex_val_x(c: char) -> (r: Option<u32>)
    ensures
        match r {
            Some(v) => hex_val(c) == v && v < 16,
            None => hex_val(c) < 0,
        },
{
    let d = c as u32;
    if '0' <= c && c <= '9' {
        Some(d - 48)
    } else if 'a' <= c && c <= 'f' {
        Some(d - 97 + 10)
    } else if 'A' <= c && c <= 'F' {
        Some(d - 65 + 10)
    } else {
        None
    }
}

fn hex4_x(t: &Vec<char>, i: usize) -> (r: Option<u32>)
    requires
        i + 4 <= t@.len(),
    ensures
        match r {
            Some(v) => is_hex4(t@, i as int) && v == hex4_val(t@, i as int) && v <= 0xFFFF,
            None => !is_hex4(t@, i as int),
        },
{
    let n = t.len();
    proof {
        assert(i + 4 <= n);
    }
    let a = hex_val_x(t[i]);
    let b = hex_val_x(t[i + 1]);
    let c = hex_val_x(t[i + 2]);
    let d = hex_val_x(t[i + 3]);
    match (a, b, c, d) {
        (Some(a), Some(b), Some(c), Some(d)) => Some(a * 0x1000 + b * 0x100 + c * 0x10 + d),
        _ => None,
    }
}

#[verifier::rlimit(100)]
#[verifier::spinoff_prover]
fn step_escape(t: &Vec<char>, cur: usize, acc: &mut Vec<char>) -> (r: Option<usize>)
    requires
        cur < t@.len(),
        t@[cur as int] == '\\',
    ensures
        match r {
            Some(nc) => {
                &&& cur < nc <= t@.len()
                &&& final(acc)@.len() == old(acc)@.len() + 1
                &&& final(acc)@ == old(acc)@.push(final(acc)@.last())
                &&& parse_string_body(t@, cur as int) == (match parse_string_body(t@, nc as int) {
                    Some((rest, j)) => Some((seq![final(acc)@.last()] + rest, j)),
                    None => None::<(Seq<char>, int)>,
                })
            },
            None => parse_string_body(t@, cur as int) is None,
        },
{
    if t.len() - cur < 2 {
        return None;
    }
    let e = t[cur + 1];
    if e == '"' || e == '\\' || e == '/' || e == 'b' || e == 'f' || e == 'n' || e == 'r' || e
        == 't' {
        let u = unescape_simple_x(e);
        acc.push(u);
        Some(cur + 2)
    } else if e == 'u' {
        if t.len() - cur < 6 {
            proof {
                assert(!is_hex4(t@, cur as int + 2));
            }
            return None;
        }
        match hex4_x(t, cur + 2) {
            None => None,
            Some(n) => {
                if n < 0xD800 || n > 0xDFFF {
                    let u = char_from_u32(n);
                    acc.push(u);
                    proof {
                        assert(u == ((hex4_val(t@, cur as int + 2) as u32) as char));
                    }
                    Some(cur + 6)
                } else if n < 0xDC00 {
                    if t.len() - cur < 12 {
                        return None;
                    }
                    if t[cur + 6] != '\\' || t[cur + 7] != 'u' {
                        return None;
                    }
                    match hex4_x(t, cur + 8) {
                        None => None,
                        Some(n2) => {
                            if n2 < 0xDC00 || n2 > 0xDFFF {
                                return None;
                            }
                            let cp = 0x10000 + (n - 0xD800) * 0x400 + (n2 - 0xDC00);
                            proof {
                                assert(0x10000 <= cp <= 0x10FFFF);
                            }
                            let u = char_from_u32(cp);
                            acc.push(u);
                            proof {
                                let ghost spec_cp = 0x10000 + (hex4_val(t@, cur as int + 2)
                                    - 0xD800) * 0x400 + (hex4_val(t@, cur as int + 8) - 0xDC00);
                                assert(cp == spec_cp);
                                assert(u == ((spec_cp as u32) as char));
                            }
                            Some(cur + 12)
                        },
                    }
                } else {
                    None
                }
            },
        }
    } else {
        None
    }
}

#[verifier::rlimit(100)]
fn parse_string_x(t: &Vec<char>, i: usize) -> (r: Option<(Vec<char>, usize)>)
    requires
        i <= t@.len(),
    ensures
        match r {
            Some(p) => parse_string(t@, i as int) == Some((p.0@, p.1 as int)) && i < p.1
                <= t@.len(),
            None => parse_string(t@, i as int) is None,
        },
{
    if i >= t.len() {
        return None;
    }
    if t[i] != '"' {
        return None;
    }
    let ghost start = i as int + 1;
    let mut acc: Vec<char> = Vec::new();
    let mut cur: usize = i + 1;
    proof {
        assert(acc@ =~= Seq::<char>::empty());
        if parse_string_body(t@, start) is Some {
            assert(acc@ + parse_string_body(t@, start).unwrap().0 =~= parse_string_body(
                t@,
                start,
            ).unwrap().0);
        }
    }
    loop
        invariant
            i as int + 1 <= cur <= t@.len(),
            t@.len() == t.len(),
            parse_string_body(t@, start) == (match parse_string_body(t@, cur as int) {
                Some((rest, j)) => Some((acc@ + rest, j)),
                None => None::<(Seq<char>, int)>,
            }),
            parse_string(t@, i as int) == parse_string_body(t@, start),
        decreases t@.len() - cur,
    {
        if cur >= t.len() {
            return None;
        }
        let c = t[cur];
        if c == '"' {
            proof {
                assert(parse_string_body(t@, cur as int) == Some(
                    (Seq::<char>::empty(), cur as int + 1),
                ));
                assert(acc@ + Seq::<char>::empty() =~= acc@);
            }
            return Some((acc, cur + 1));
        } else if c == '\\' {
            let ghost acc0 = acc@;
            match step_escape(t, cur, &mut acc) {
                Some(nc) => {
                    proof {
                        let u = acc@.last();
                        if parse_string_body(t@, nc as int) is Some {
                            let rest = parse_string_body(t@, nc as int).unwrap().0;
                            assert(acc0 + (seq![u] + rest) =~= acc@ + rest);
                        }
                    }
                    cur = nc;
                },
                None => {
                    return None;
                },
            }
        } else if (c as u32) < 0x20 {
            return None;
        } else {
            let ghost acc0 = acc@;
            acc.push(c);
            proof {
                if parse_string_body(t@, cur as int + 1) is Some {
                    let rest = parse_string_body(t@, cur as int + 1).unwrap().0;
                    assert(acc0 + (seq![c] + rest) =~= acc@ + rest);
                }
            }
            cur = cur + 1;
        }
    }
}

fn is_digit_x(c: char) -> (r: bool)
    ensures
        r == is_digit_char(c),
{
    '0' <= c && c <= '9'
}

fn digits_end_x(t: &Vec<char>, i: usize) -> (r: usize)
    requires
        i <= t@.len(),
    ensures
        r == digits_end(t@, i as int),
        i <= r <= t@.len(),
{
    let mut cur = i;
    while cur < t.len() && is_digit_x(t[cur])
        invariant
            i <= cur <= t@.len(),
            digits_end(t@, i as int) == digits_end(t@, cur as int),
        decreases t@.len() - cur,
    {
        cur = cur + 1;
    }
    proof {
        assert(digits_end(t@, cur as int) == cur as int);
    }
    cur
}

proof fn lemma_digits_val_nonneg(s: Seq<char>)
    requires
        forall|k: int| 0 <= k < s.len() ==> is_digit_char(#[trigger] s[k]),
    ensures
        digits_val_of(s) >= 0,
    decreases s.len(),
{
    if s.len() > 0 {
        assert(forall|k: int| 0 <= k < s.drop_last().len() ==> s.drop_last()[k] == s[k]);
        lemma_digits_val_nonneg(s.drop_last());
        assert(digit_val(s.last()) >= 0);
    }
}

fn finish_number_x(
    t: &Vec<char>,
    neg: bool,
    over: bool,
    mag: u64,
    p: usize,
    Ghost(vmag): Ghost<int>,
) -> (r: Option<(Option<i64>, usize)>)
    requires
        p <= t@.len(),
        !over ==> mag == vmag,
        over ==> vmag > u64::MAX,
        vmag >= 0,
    ensures
        match r {
            Some(q) => finish_number(t@, neg, vmag, p as int) == Some((q.0, q.1 as int)) && p <= q.1
                <= t@.len(),
            None => finish_number(t@, neg, vmag, p as int) is None,
        },
{
    let mut e0 = p;
    let mut has_frac = false;
    if p < t.len() && t[p] == '.' {
        let fe = digits_end_x(t, p + 1);
        if fe == p + 1 {
            return None;
        }
        has_frac = true;
        e0 = fe;
    }
    if e0 < t.len() && (t[e0] == 'e' || t[e0] == 'E') {
        let e1 = if e0 + 1 < t.len() && (t[e0 + 1] == '+' || t[e0 + 1] == '-') {
            e0 + 2
        } else {
            e0 + 1
        };
        let exp_end = if e1 <= t.len() {
            digits_end_x(t, e1)
        } else {
            proof {
                assert(e1 == t@.len() + 1);
                assert(digits_end(t@, e1 as int) == e1 as int);
            }
            e1
        };
        if exp_end == e1 {
            return None;
        }
        return Some((None, exp_end));
    }
    if has_frac {
        return Some((None, e0));
    }
    if over {
        return Some((None, e0));
    }
    if neg {
        if mag <= 9223372036854775808u64 {
            Some((Some((-(mag as i128)) as i64), e0))
        } else {
            Some((None, e0))
        }
    } else {
        if mag <= 9223372036854775807u64 {
            Some((Some(mag as i64), e0))
        } else {
            Some((None, e0))
        }
    }
}

fn parse_number_x(t: &Vec<char>, i: usize) -> (r: Option<(Option<i64>, usize)>)
    requires
        i <= t@.len(),
    ensures
        match r {
            Some(p) => parse_number(t@, i as int) == Some((p.0, p.1 as int)) && i < p.1 <= t@.len(),
            None => parse_number(t@, i as int) is None,
        },
{
    let neg = i < t.len() && t[i] == '-';
    let j0 = if neg {
        i + 1
    } else {
        i
    };
    if j0 >= t.len() {
        return None;
    }
    let c = t[j0];
    if c == '0' {
        let r = finish_number_x(t, neg, false, 0, j0 + 1, Ghost(0));
        proof {
            lemma_finish_number_bounds(t@, neg, 0, j0 as int + 1);
        }
        r
    } else if is_digit_x(c) {
        let mut cur = j0;
        let mut mag: u128 = 0;
        while cur < t.len() && is_digit_x(t[cur])
            invariant
                j0 <= cur <= t@.len(),
                j0 < t@.len(),
                digits_end(t@, j0 as int) == digits_end(t@, cur as int),
                forall|k: int| j0 <= k < cur ==> is_digit_char(#[trigger] t@[k]),
                mag <= u64::MAX ==> mag == digits_val_of(t@.subrange(j0 as int, cur as int)),
                mag > u64::MAX ==> digits_val_of(t@.subrange(j0 as int, cur as int)) > u64::MAX,
                mag <= 0xFFFF_FFFF_FFFF_FFFF_Fu128,
            decreases t@.len() - cur,
        {
            let d = (t[cur] as u32) - 48;
            let ghost pre = t@.subrange(j0 as int, cur as int);
            let ghost post = t@.subrange(j0 as int, cur as int + 1);
            proof {
                assert(post.drop_last() =~= pre);
                assert(post.last() == t@[cur as int]);
                assert(digit_val(t@[cur as int]) == d);
                lemma_digits_val_nonneg(pre);
            }
            if mag <= u64::MAX as u128 {
                mag = mag * 10 + (d as u128);
            }
            cur = cur + 1;
        }
        proof {
            assert(digits_end(t@, cur as int) == cur as int);
        }
        let e = cur;
        let ghost vmag = digits_val_of(t@.subrange(j0 as int, e as int));
        let over = mag > u64::MAX as u128;
        let m64: u64 = if over {
            0
        } else {
            mag as u64
        };
        let r = finish_number_x(t, neg, over, m64, e, Ghost(vmag));
        proof {
            lemma_digits_val_nonneg(t@.subrange(j0 as int, e as int));
            lemma_finish_number_bounds(t@, neg, vmag, e as int);
        }
        r
    } else {
        None
    }
}


// ---------------------------------------------------------------------------
// The value grammar. A fuel parameter bounds the recursion; the snapshot
// reader hands it a bound no real text can exhaust, so the fuel never runs
// out on input that fits in memory.
// ---------------------------------------------------------------------------

/// What the record reader needs to know of a member value: the text when it
/// is a string, the value when it is an integer that fits an i64.
pub ghost struct JInfo {
    pub is_str: Option<Seq<char>>,
    pub is_int: Option<i64>,
}

pub open spec fn info_other() -> JInfo {
    JInfo { is_str: None, is_int: None }
}

/// Any JSON value at `i`: its classification and the position after it.
pub open spec fn parse_value(t: Seq<char>, i: int, fuel: nat) -> Option<(JInfo, int)>
    decreases fuel,
{
    if fuel == 0 {
        None
    } else if !(0 <= i < t.len()) {
        None
    } else {
        let c = t[i];
        if c == '"' {
            match parse_string(t, i) {
                Some((s, j)) => Some((JInfo { is_str: Some(s), is_int: None }, j)),
                None => None,
            }
        } else if c == '-' || is_digit_char(c) {
            match parse_number(t, i) {
                Some((v, j)) => Some((JInfo { is_str: None, is_int: v }, j)),
                None => None,
            }
        } else if c == 't' {
            if i + 4 <= t.len() && t[i + 1] == 'r' && t[i + 2] == 'u' && t[i + 3] == 'e' {
                Some((info_other(), i + 4))
            } else {
                None
            }
        } else if c == 'f' {
            if i + 5 <= t.len() && t[i + 1] == 'a' && t[i + 2] == 'l' && t[i + 3] == 's' && t[i + 4]
                == 'e' {
                Some((info_other(), i + 5))
            } else {
                None
            }
        } else if c == 'n' {
            if i + 4 <= t.len() && t[i + 1] == 'u' && t[i + 2] == 'l' && t[i + 3] == 'l' {
                Some((info_other(), i + 4))
            } else {
                None
            }
        } else if c == '[' {
            let j = skip_ws(t, i + 1);
            if j < t.len() && t[j] == ']' {
                Some((info_other(), j + 1))
            } else {
                match parse_elements(t, j, (fuel - 1) as nat) {
                    Some(j2) => Some((info_other(), j2)),
                    None => None,
                }
            }
        } else if c == '{' {
            let j = skip_ws(t, i + 1);
            if j < t.len() && t[j] == '}' {
                Some((info_other(), j + 1))
            } else {
                match parse_members(t, j, (fuel - 1) as nat) {
                    Some(j2) => Some((info_other(), j2)),
                    None => None,
                }
            }
        } else {
            None
        }
    }
}

/// The elements of an array, from the first element through the closing
/// bracket; the position after it.
pub open spec fn parse_elements(t: Seq<char>, i: int, fuel: nat) -> Option<int>
    decreases fuel,
{
    if fuel == 0 {
        None
    } else {
        match parse_value(t, i, (fuel - 1) as nat) {
            Some((info, j)) => {
                let k = skip_ws(t, j);
                if k < t.len() && t[k] == ',' {
                    parse_elements(t, skip_ws(t, k + 1), (fuel - 1) as nat)
                } else if k < t.len() && t[k] == ']' {
                    Some(k + 1)
                } else {
                    None
                }
            },
            None => None,
        }
    }
}

/// The members of an object being skipped, from the first key through the
/// closing brace; the position after it.
pub open spec fn parse_members(t: Seq<char>, i: int, fuel: nat) -> Option<int>
    decreases fuel,
{
    if fuel == 0 {
        None
    } else {
        match parse_string(t, i) {
            Some((key, j)) => {
                let k = skip_ws(t, j);
                if k < t.len() && t[k] == ':' {
                    match parse_value(t, skip_ws(t, k + 1), (fuel - 1) as nat) {
                        Some((info, p)) => {
                            let q = skip_ws(t, p);
                            if q < t.len() && t[q] == ',' {
                                parse_members(t, skip_ws(t, q + 1), (fuel - 1) as nat)
                            } else if q < t.len() && t[q] == '}' {
                                Some(q + 1)
                            } else {
                                None
                            }
                        },
                        None => None,
                    }
                } else {
                    None
                }
            },
            None => None,
        }
    }
}

/// The field name a record's payload is stored under.
pub open spec fn value_field() -> Seq<char> {
    seq!['v', 'a', 'l', 'u', 'e']
}

/// The field name a record's write time is stored under.
pub open spec fn created_field() -> Seq<char> {
    seq!['c', 'r', 'e', 'a', 't', 'e', 'd', '_', 'a', 't']
}

/// What a record object's members leave behind: the payload field when its
/// last occurrence is a string, the write time when its last occurrence is
/// an integer. Other members are read and dropped.
pub ghost struct RecFields {
    pub value: Option<Seq<char>>,
    pub created_at: Option<i64>,
}

/// The members of a record object, folded into its fields; the position
/// after the closing brace.
pub open spec fn parse_record_members(t: Seq<char>, i: int, fuel: nat, acc: RecFields) -> Option<
    (RecFields, int),
>
    decreases fuel,
{
    if fuel == 0 {
        None
    } else {
        match parse_string(t, i) {
            Some((key, j)) => {
                let k = skip_ws(t, j);
                if k < t.len() && t[k] == ':' {
                    match parse_value(t, skip_ws(t, k + 1), (fuel - 1) as nat) {
                        Some((info, p)) => {
                            let acc2 = if key == value_field() {
                                RecFields { value: info.is_str, created_at: acc.created_at }
                            } else if key == created_field() {
                                RecFields { value: acc.value, created_at: info.is_int }
                            } else {
                                acc
                            };
                            let q = skip_ws(t, p);
                            if q < t.len() && t[q] == ',' {
                                parse_record_members(t, skip_ws(t, q + 1), (fuel - 1) as nat, acc2)
                            } else if q < t.len() && t[q] == '}' {
                                Some((acc2, q + 1))
                            } else {
                                None
                            }
                        },
                        None => None,
                    }
                } else {
                    None
                }
            },
            None => None,
        }
    }
}

/// What one snapshot record parses to.
pub ghost enum RecKind {
    /// An object record: the payload field when present as a string, the
    /// write time when present as an integer. The loader admits only
    /// records with both; one missing either is malformed and skipped.
    Obj { value: Option<Seq<char>>, created_at: Option<i64> },
    /// The legacy format: a bare string payload.
    Legacy(Seq<char>),
    /// A value of any other shape; the reader drops the key.
    Skip,
}

pub ghost struct RecView {
    pub key: Seq<char>,
    pub kind: RecKind,
}

/// One member of the top-level snapshot object: the record it yields and
/// the position after its value.
#[verifier::opaque]
pub open spec fn parse_top_member(t: Seq<char>, i: int, fuel: nat) -> Option<(RecView, int)> {
    match parse_string(t, i) {
        Some((key, j)) => {
            let k = skip_ws(t, j);
            if k < t.len() && t[k] == ':' {
                let m = skip_ws(t, k + 1);
                let vres: Option<(RecKind, int)> = if m < t.len() && t[m] == '{' {
                    let j2 = skip_ws(t, m + 1);
                    if j2 < t.len() && t[j2] == '}' {
                        Some((RecKind::Obj { value: None, created_at: None }, j2 + 1))
                    } else {
                        match parse_record_members(
                            t,
                            j2,
                            (fuel - 1) as nat,
                            RecFields { value: None, created_at: None },
                        ) {
                            Some((f, p)) => Some(
                                (RecKind::Obj { value: f.value, created_at: f.created_at }, p),
                            ),
                            None => None,
                        }
                    }
                } else if m < t.len() && t[m] == '"' {
                    match parse_string(t, m) {
                        Some((s, p)) => Some((RecKind::Legacy(s), p)),
                        None => None,
                    }
                } else {
                    match parse_value(t, m, (fuel - 1) as nat) {
                        Some((info, p)) => Some((RecKind::Skip, p)),
                        None => None,
                    }
                };
                match vres {
                    Some((kind, p)) => Some((RecView { key, kind }, p)),
                    None => None,
                }
            } else {
                None
            }
        },
        None => None,
    }
}

/// The members of the top-level snapshot object: the records in order, and
/// the position after the closing brace.
#[verifier::opaque]
pub open spec fn parse_top_members(t: Seq<char>, i: int, fuel: nat) -> Option<(Seq<RecView>, int)>
    decreases fuel,
{
    if fuel == 0 {
        None
    } else {
        match parse_top_member(t, i, fuel) {
            Some((rec, p)) => {
                let q = skip_ws(t, p);
                if q < t.len() && t[q] == ',' {
                    match parse_top_members(t, skip_ws(t, q + 1), (fuel - 1) as nat) {
                        Some((rest, e)) => Some((seq![rec] + rest, e)),
                        None => None,
                    }
                } else if q < t.len() && t[q] == '}' {
                    Some((seq![rec], q + 1))
                } else {
                    None
                }
            },
            None => None,
        }
    }
}

/// The fuel the snapshot reader parses with: more steps than any text that
/// fits in memory can use.
pub open spec fn snapshot_fuel() -> nat {
    0xFFFF_FFFF_FFFF_FFFF as nat
}

/// The whole snapshot text: a JSON object of records, nothing before or
/// after it. Anything else reads as nothing, and the load is abandoned.
pub open spec fn spec_parse_snapshot(t: Seq<char>) -> Option<Seq<RecView>> {
    let i = skip_ws(t, 0);
    if 0 <= i < t.len() && t[i] == '{' {
        let j = skip_ws(t, i + 1);
        if j < t.len() && t[j] == '}' {
            if skip_ws(t, j + 1) == t.len() {
                Some(Seq::empty())
            } else {
                None
            }
        } else {
            match parse_top_members(t, j, snapshot_fuel()) {
                Some((recs, p)) => {
                    if skip_ws(t, p) == t.len() {
                        Some(recs)
                    } else {
                        None
                    }
                },
                None => None,
            }
        }
    } else {
        None
    }
}


/// One snapshot record as read by the executable parser.
pub enum SnapKind {
    Obj { value: Option<String>, created_at: Option<i64> },
    Legacy(String),
    Skip,
}

pub struct SnapRecord {
    pub key: String,
    pub kind: SnapKind,
}

impl View for SnapKind {
    type V = RecKind;

    open spec fn view(&self) -> RecKind {
        match self {
            SnapKind::Obj { value, created_at } => RecKind::Obj {
                value: match value {
                    Some(v) => Some(v@),
                    None => None,
                },
                created_at: *created_at,
            },
            SnapKind::Legacy(s) => RecKind::Legacy(s@),
            SnapKind::Skip => RecKind::Skip,
        }
    }
}

impl View for SnapRecord {
    type V = RecView;

    open spec fn view(&self) -> RecView {
        RecView { key: self.key@, kind: self.kind@ }
    }
}

/// The records' mathematical images, in order.
pub open spec fn views_of(s: Seq<SnapRecord>) -> Seq<RecView>
    decreases s.len(),
{
    if s.len() == 0 {
        Seq::empty()
    } else {
        views_of(s.drop_last()).push(s.last()@)
    }
}

pub proof fn lemma_views_of(s: Seq<SnapRecord>)
    ensures
        views_of(s).len() == s.len(),
        forall|i: int| 0 <= i < s.len() ==> views_of(s)[i] == s[i]@,
    decreases s.len(),
{
    if s.len() > 0 {
        lemma_views_of(s.drop_last());
        assert(forall|i: int| 0 <= i < s.len() - 1 ==> s.drop_last()[i] == s[i]);
    }
}

struct JInfoX {
    is_str: Option<Vec<char>>,
    is_int: Option<i64>,
}

impl View for JInfoX {
    type V = JInfo;

    closed spec fn view(&self) -> JInfo {
        JInfo {
            is_str: match &self.is_str {
                Some(v) => Some(v@),
                None => None,
            },
            is_int: self.is_int,
        }
    }
}

fn parse_value_x(t: &Vec<char>, i: usize, fuel: u64) -> (r: Option<(JInfoX, usize)>)
    requires
        i <= t@.len(),
    ensures
        match r {
            Some(p) => parse_value(t@, i as int, fuel as nat) == Some((p.0@, p.1 as int)) && i < p.1
                <= t@.len(),
            None => parse_value(t@, i as int, fuel as nat) is None,
        },
    decreases fuel,
{
    if fuel == 0 {
        return None;
    }
    if i >= t.len() {
        return None;
    }
    let c = t[i];
    if c == '"' {
        match parse_string_x(t, i) {
            Some((s, j)) => Some((JInfoX { is_str: Some(s), is_int: None }, j)),
            None => None,
        }
    } else if c == '-' || is_digit_x(c) {
        match parse_number_x(t, i) {
            Some((v, j)) => Some((JInfoX { is_str: None, is_int: v }, j)),
            None => None,
        }
    } else if c == 't' {
        if t.len() - i >= 4 && t[i + 1] == 'r' && t[i + 2] == 'u' && t[i + 3] == 'e' {
            Some((JInfoX { is_str: None, is_int: None }, i + 4))
        } else {
            None
        }
    } else if c == 'f' {
        if t.len() - i >= 5 && t[i + 1] == 'a' && t[i + 2] == 'l' && t[i + 3] == 's' && t[i + 4]
            == 'e' {
            Some((JInfoX { is_str: None, is_int: None }, i + 5))
        } else {
            None
        }
    } else if c == 'n' {
        if t.len() - i >= 4 && t[i + 1] == 'u' && t[i + 2] == 'l' && t[i + 3] == 'l' {
            Some((JInfoX { is_str: None, is_int: None }, i + 4))
        } else {
            None
        }
    } else if c == '[' {
        let j = skip_ws_x(t, i + 1);
        if j < t.len() && t[j] == ']' {
            Some((JInfoX { is_str: None, is_int: None }, j + 1))
        } else {
            match parse_elements_x(t, j, fuel - 1) {
                Some(j2) => Some((JInfoX { is_str: None, is_int: None }, j2)),
                None => None,
            }
        }
    } else if c == '{' {
        let j = skip_ws_x(t, i + 1);
        if j < t.len() && t[j] == '}' {
            Some((JInfoX { is_str: None, is_int: None }, j + 1))
        } else {
            match parse_members_x(t, j, fuel - 1) {
                Some(j2) => Some((JInfoX { is_str: None, is_int: None }, j2)),
                None => None,
            }
        }
    } else {
        None
    }
}

fn parse_elements_x(t: &Vec<char>, i: usize, fuel: u64) -> (r: Option<usize>)
    requires
        i <= t@.len(),
    ensures
        match r {
            Some(j2) => parse_elements(t@, i as int, fuel as nat) == Some(j2 as int) && i < j2
                <= t@.len(),
            None => parse_elements(t@, i as int, fuel as nat) is None,
        },
    decreases fuel,
{
    if fuel == 0 {
        return None;
    }
    match parse_value_x(t, i, fuel - 1) {
        Some((_v, j)) => {
            let k = skip_ws_x(t, j);
            if k < t.len() && t[k] == ',' {
                let n = skip_ws_x(t, k + 1);
                parse_elements_x(t, n, fuel - 1)
            } else if k < t.len() && t[k] == ']' {
                Some(k + 1)
            } else {
                None
            }
        },
        None => None,
    }
}

fn parse_members_x(t: &Vec<char>, i: usize, fuel: u64) -> (r: Option<usize>)
    requires
        i <= t@.len(),
    ensures
        match r {
            Some(j2) => parse_members(t@, i as int, fuel as nat) == Some(j2 as int) && i < j2
                <= t@.len(),
            None => parse_members(t@, i as int, fuel as nat) is None,
        },
    decreases fuel,
{
    if fuel == 0 {
        return None;
    }
    match parse_string_x(t, i) {
        Some((_key, j)) => {
            let k = skip_ws_x(t, j);
            if k < t.len() && t[k] == ':' {
                let m = skip_ws_x(t, k + 1);
                match parse_value_x(t, m, fuel - 1) {
                    Some((_v, p)) => {
                        let q = skip_ws_x(t, p);
                        if q < t.len() && t[q] == ',' {
                            let n = skip_ws_x(t, q + 1);
                            parse_members_x(t, n, fuel - 1)
                        } else if q < t.len() && t[q] == '}' {
                            Some(q + 1)
                        } else {
                            None
                        }
                    },
                    None => None,
                }
            } else {
                None
            }
        },
        None => None,
    }
}

fn chars_eq(a: &Vec<char>, b: &Vec<char>) -> (r: bool)
    ensures
        r == (a@ == b@),
{
    if a.len() != b.len() {
        proof {
            assert(a@ != b@);
        }
        return false;
    }
    let mut j: usize = 0;
    while j < a.len()
        invariant
            j <= a@.len(),
            a@.len() == b@.len(),
            forall|k: int| 0 <= k < j ==> a@[k] == b@[k],
        decreases a@.len() - j,
    {
        if a[j] != b[j] {
            proof {
                assert(a@[j as int] != b@[j as int]);
            }
            return false;
        }
        j += 1;
    }
    proof {
        assert(a@ =~= b@);
    }
    true
}

struct RecFieldsX {
    value: Option<Vec<char>>,
    created_at: Option<i64>,
}

impl View for RecFieldsX {
    type V = RecFields;

    closed spec fn view(&self) -> RecFields {
        RecFields {
            value: match &self.value {
                Some(v) => Some(v@),
                None => None,
            },
            created_at: self.created_at,
        }
    }
}

#[verifier::rlimit(100)]
#[verifier::spinoff_prover]
fn parse_record_members_x(t: &Vec<char>, i: usize, fuel: u64, acc: RecFieldsX) -> (r: Option<
    (RecFieldsX, usize),
>)
    requires
        i <= t@.len(),
    ensures
        match r {
            Some(p) => parse_record_members(t@, i as int, fuel as nat, acc@) == Some(
                (p.0@, p.1 as int),
            ) && i < p.1 <= t@.len(),
            None => parse_record_members(t@, i as int, fuel as nat, acc@) is None,
        },
    decreases fuel,
{
    if fuel == 0 {
        return None;
    }
    match parse_string_x(t, i) {
        Some((key, j)) => {
            let k = skip_ws_x(t, j);
            if k < t.len() && t[k] == ':' {
                let m = skip_ws_x(t, k + 1);
                match parse_value_x(t, m, fuel - 1) {
                    Some((info, p)) => {
                        let vf = crate::json_text::str_to_chars("value");
                        let cf = crate::json_text::str_to_chars("created_at");
                        proof {
                            reveal_strlit("value");
                            reveal_strlit("created_at");
                            assert(vf@ =~= value_field());
                            assert(cf@ =~= created_field());
                        }
                        let acc2 = if chars_eq(&key, &vf) {
                            RecFieldsX { value: info.is_str, created_at: acc.created_at }
                        } else if chars_eq(&key, &cf) {
                            RecFieldsX { value: acc.value, created_at: info.is_int }
                        } else {
                            acc
                        };
                        let q = skip_ws_x(t, p);
                        if q < t.len() && t[q] == ',' {
                            let n = skip_ws_x(t, q + 1);
                            parse_record_members_x(t, n, fuel - 1, acc2)
                        } else if q < t.len() && t[q] == '}' {
                            Some((acc2, q + 1))
                        } else {
                            None
                        }
                    },
                    None => None,
                }
            } else {
                None
            }
        },
        None => None,
    }
}


proof fn lemma_top_chain_step(
    t: Seq<char>,
    start: int,
    f0: nat,
    cur: int,
    gf: nat,
    pre: Seq<RecView>,
    rec: RecView,
    p: int,
    q: int,
    n: int,
)
    requires
        parse_top_members(t, start, f0) == (match parse_top_members(t, cur, gf) {
            Some((rest, e)) => Some((pre + rest, e)),
            None => None::<(Seq<RecView>, int)>,
        }),
        gf >= 1,
        parse_top_member(t, cur, gf) == Some((rec, p)),
        q == skip_ws(t, p),
        q < t.len() && t[q] == ',',
        n == skip_ws(t, q + 1),
    ensures
        parse_top_members(t, start, f0) == (match parse_top_members(t, n, (gf - 1) as nat) {
            Some((rest, e)) => Some((pre.push(rec) + rest, e)),
            None => None::<(Seq<RecView>, int)>,
        }),
{
    reveal(parse_top_members);
    if parse_top_members(t, n, (gf - 1) as nat) is Some {
        let rest = parse_top_members(t, n, (gf - 1) as nat).unwrap().0;
        let e = parse_top_members(t, n, (gf - 1) as nat).unwrap().1;
        assert(parse_top_members(t, cur, gf) == Some((seq![rec] + rest, e)));
        assert(pre + (seq![rec] + rest) =~= pre.push(rec) + rest);
    } else {
        assert(parse_top_members(t, cur, gf) is None);
    }
}

proof fn lemma_top_chain_end(
    t: Seq<char>,
    start: int,
    f0: nat,
    cur: int,
    gf: nat,
    pre: Seq<RecView>,
    rec: RecView,
    p: int,
    q: int,
)
    requires
        parse_top_members(t, start, f0) == (match parse_top_members(t, cur, gf) {
            Some((rest, e)) => Some((pre + rest, e)),
            None => None::<(Seq<RecView>, int)>,
        }),
        gf >= 1,
        parse_top_member(t, cur, gf) == Some((rec, p)),
        q == skip_ws(t, p),
        q < t.len() && t[q] == '}',
    ensures
        parse_top_members(t, start, f0) == Some((pre.push(rec), q + 1)),
{
    reveal(parse_top_members);
    assert(parse_top_members(t, cur, gf) == Some((seq![rec], q + 1)));
    assert(pre + seq![rec] =~= pre.push(rec));
}

proof fn lemma_top_chain_none(
    t: Seq<char>,
    start: int,
    f0: nat,
    cur: int,
    gf: nat,
    pre: Seq<RecView>,
)
    requires
        parse_top_members(t, start, f0) == (match parse_top_members(t, cur, gf) {
            Some((rest, e)) => Some((pre + rest, e)),
            None => None::<(Seq<RecView>, int)>,
        }),
        ({
            ||| gf == 0
            ||| parse_top_member(t, cur, gf) is None
            ||| (parse_top_member(t, cur, gf) matches Some((rec, p)) && {
                let q = skip_ws(t, p);
                !(q < t.len() && (t[q] == ',' || t[q] == '}'))
            })
        }),
    ensures
        parse_top_members(t, start, f0) is None,
{
    reveal(parse_top_members);
    assert(parse_top_members(t, cur, gf) is None);
}

#[verifier::rlimit(100)]
#[verifier::spinoff_prover]
fn parse_top_member_x(t: &Vec<char>, i: usize, fuel: u64) -> (r: Option<(SnapRecord, usize)>)
    requires
        i <= t@.len(),
        fuel >= 1,
    ensures
        match r {
            Some(p) => parse_top_member(t@, i as int, fuel as nat) == Some((p.0@, p.1 as int))
                && i < p.1 <= t@.len(),
            None => parse_top_member(t@, i as int, fuel as nat) is None,
        },
{
    reveal(parse_top_member);
    match parse_string_x(t, i) {
        None => None,
        Some((keyc, j)) => {
            let k = skip_ws_x(t, j);
            if !(k < t.len() && t[k] == ':') {
                return None;
            }
            let m = skip_ws_x(t, k + 1);
            let vres: Option<(SnapKind, usize)> = if m < t.len() && t[m] == '{' {
                let j2 = skip_ws_x(t, m + 1);
                if j2 < t.len() && t[j2] == '}' {
                    Some((SnapKind::Obj { value: None, created_at: None }, j2 + 1))
                } else {
                    match parse_record_members_x(
                        t,
                        j2,
                        fuel - 1,
                        RecFieldsX { value: None, created_at: None },
                    ) {
                        Some((fx, p)) => {
                            let v = match fx.value {
                                Some(vc) => Some(crate::trusted::chars_to_string(&vc)),
                                None => None,
                            };
                            Some((SnapKind::Obj { value: v, created_at: fx.created_at }, p))
                        },
                        None => None,
                    }
                }
            } else if m < t.len() && t[m] == '"' {
                match parse_string_x(t, m) {
                    Some((sc, p)) => Some(
                        (SnapKind::Legacy(crate::trusted::chars_to_string(&sc)), p),
                    ),
                    None => None,
                }
            } else {
                match parse_value_x(t, m, fuel - 1) {
                    Some((_info, p)) => Some((SnapKind::Skip, p)),
                    None => None,
                }
            };
            match vres {
                None => None,
                Some((kind, p)) => Some(
                    (SnapRecord { key: crate::trusted::chars_to_string(&keyc), kind }, p),
                ),
            }
        },
    }
}

#[verifier::rlimit(100)]
#[verifier::spinoff_prover]
fn parse_top_members_x(t: &Vec<char>, i: usize, fuel: u64) -> (r: Option<(Vec<SnapRecord>, usize)>)
    requires
        i <= t@.len(),
    ensures
        match r {
            Some(p) => parse_top_members(t@, i as int, fuel as nat) == Some(
                (views_of(p.0@), p.1 as int),
            ) && p.1 <= t@.len(),
            None => parse_top_members(t@, i as int, fuel as nat) is None,
        },
{
    reveal(parse_top_members);
    let ghost start = i as int;
    let ghost f0 = fuel as nat;
    let mut acc: Vec<SnapRecord> = Vec::new();
    let mut cur: usize = i;
    let mut gf: u64 = fuel;
    proof {
        assert(views_of(acc@) =~= Seq::<RecView>::empty());
        if parse_top_members(t@, start, f0) is Some {
            assert(views_of(acc@) + parse_top_members(t@, start, f0).unwrap().0
                =~= parse_top_members(t@, start, f0).unwrap().0);
        }
    }
    loop
        invariant
            start == i as int,
            f0 == fuel as nat,
            cur <= t@.len(),
            t@.len() == t.len(),
            parse_top_members(t@, start, f0) == (match parse_top_members(
                t@,
                cur as int,
                gf as nat,
            ) {
                Some((rest, e)) => Some((views_of(acc@) + rest, e)),
                None => None::<(Seq<RecView>, int)>,
            }),
        decreases gf,
    {
        if gf == 0 {
            proof {
                lemma_top_chain_none(t@, start, f0, cur as int, gf as nat, views_of(acc@));
            }
            return None;
        }
        let ghost acc0 = acc@;
        match parse_top_member_x(t, cur, gf) {
            None => {
                proof {
                    lemma_top_chain_none(t@, start, f0, cur as int, gf as nat, views_of(acc@));
                }
                return None;
            },
            Some((rec, p)) => {
                let ghost recv = rec@;
                let q = skip_ws_x(t, p);
                if q < t.len() && t[q] == ',' {
                    let n = skip_ws_x(t, q + 1);
                    proof {
                        lemma_top_chain_step(
                            t@,
                            start,
                            f0,
                            cur as int,
                            gf as nat,
                            views_of(acc0),
                            recv,
                            p as int,
                            q as int,
                            n as int,
                        );
                    }
                    acc.push(rec);
                    proof {
                        assert(acc@.drop_last() =~= acc0);
                        assert(views_of(acc@) == views_of(acc0).push(recv));
                    }
                    cur = n;
                    gf = gf - 1;
                } else if q < t.len() && t[q] == '}' {
                    proof {
                        lemma_top_chain_end(
                            t@,
                            start,
                            f0,
                            cur as int,
                            gf as nat,
                            views_of(acc0),
                            recv,
                            p as int,
                            q as int,
                        );
                    }
                    acc.push(rec);
                    proof {
                        assert(acc@.drop_last() =~= acc0);
                        assert(views_of(acc@) == views_of(acc0).push(recv));
                    }
                    return Some((acc, q + 1));
                } else {
                    proof {
                        lemma_top_chain_none(t@, start, f0, cur as int, gf as nat, views_of(acc@));
                    }
                    return None;
                }
            },
        }
    }
}

/// Parse a whole snapshot text into its records, or nothing when the text
/// is not a JSON object: exactly what [`spec_parse_snapshot`] defines.
pub fn parse_snapshot_chars(t: &Vec<char>) -> (r: Option<Vec<SnapRecord>>)
    ensures
        match r {
            Some(v) => spec_parse_snapshot(t@) == Some(views_of(v@)),
            None => spec_parse_snapshot(t@) is None,
        },
{
    let i = skip_ws_x(t, 0);
    if !(i < t.len() && t[i] == '{') {
        return None;
    }
    let j = skip_ws_x(t, i + 1);
    if j < t.len() && t[j] == '}' {
        let e = skip_ws_x(t, j + 1);
        if e == t.len() {
            let empty: Vec<SnapRecord> = Vec::new();
            proof {
                assert(views_of(empty@) =~= Seq::<RecView>::empty());
            }
            Some(empty)
        } else {
            None
        }
    } else {
        match parse_top_members_x(t, j, 0xFFFF_FFFF_FFFF_FFFFu64) {
            Some((recs, p)) => {
                let e = skip_ws_x(t, p);
                if e == t.len() {
                    Some(recs)
                } else {
                    None
                }
            },
            None => None,
        }
    }
}

} // verus!
