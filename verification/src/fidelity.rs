use vstd::prelude::*;

use crate::json_text::{
    dec_digits, digits_val_of, escape_char, escape_seq, hexdig, hex_val, int_text, is_digit_char,
    json_quoted, lemma_dec_digits,
};
use crate::persistence::{
    pairs_match_map, record_text, records_text, snapshot_text, spec_apply_records,
};
use crate::snapshot::{
    created_field, digits_end, finish_number, hex4_val, is_hex4, is_simple_escape, parse_number,
    parse_record_members, parse_string, parse_string_body, parse_top_member, parse_top_members,
    skip_ws, snapshot_fuel, spec_parse_snapshot, unescape_simple, value_field, RecFields, RecKind,
    RecView,
};
use crate::store::{EntryView, PairView};

verus! {

// ---------------------------------------------------------------------------
// Round trips: what the snapshot writer emits, the grammar reads back
// unchanged, for any key and payload text. These feed the snapshot
// fidelity law.
// ---------------------------------------------------------------------------

pub proof fn lemma_skip_ws_none(t: Seq<char>, p: int)
    requires
        0 <= p,
        p >= t.len() || !crate::json_text::is_ws_char(t[p]),
    ensures
        skip_ws(t, p) == p,
{
}

pub proof fn lemma_digits_end_run(t: Seq<char>, i: int, e: int)
    requires
        0 <= i <= e <= t.len(),
        forall|k: int| i <= k < e ==> is_digit_char(#[trigger] t[k]),
        e == t.len() || !is_digit_char(t[e]),
    ensures
        digits_end(t, i) == e,
    decreases e - i,
{
    if i < e {
        lemma_digits_end_run(t, i + 1, e);
    }
}

pub proof fn lemma_hex_val_hexdig(d: int)
    requires
        0 <= d < 16,
    ensures
        hex_val(hexdig(d)) == d,
{
}

pub proof fn lemma_parse_string_body_round(t: Seq<char>, i: int, s: Seq<char>)
    requires
        0 <= i,
        i + escape_seq(s).len() + 1 <= t.len(),
        forall|k: int| 0 <= k < escape_seq(s).len() ==> #[trigger] t[i + k] == escape_seq(s)[k],
        t[i + escape_seq(s).len()] == '"',
    ensures
        parse_string_body(t, i) == Some((s, i + escape_seq(s).len() + 1)),
    decreases s.len(),
{
    reveal(parse_string_body);
    let esc = escape_seq(s);
    let l = esc.len() as int;
    if s.len() == 0 {
        assert(l == 0);
        assert(t[i + 0] == '"');
    } else {
        let c = s[0];
        let e0 = escape_char(c);
        let k = e0.len() as int;
        let s1 = s.drop_first();
        assert(esc == e0 + escape_seq(s1));
        assert(forall|k2: int| 0 <= k2 < k ==> esc[k2] == e0[k2]);
        assert forall|k2: int| 0 <= k2 < escape_seq(s1).len() implies #[trigger] t[(i + k) + k2]
            == escape_seq(s1)[k2] by {
            assert(t[i + (k + k2)] == esc[k + k2]);
            assert(esc[k + k2] == escape_seq(s1)[k2]);
            assert(i + (k + k2) == (i + k) + k2);
        }
        assert(t[(i + k) + escape_seq(s1).len()] == '"') by {
            assert(i + k + escape_seq(s1).len() == i + l);
        }
        lemma_parse_string_body_round(t, i + k, s1);
        assert(seq![c] + s1 =~= s);
        if c == '"' || c == '\\' || c == '\n' || c == '\r' || c == '\t' {
            assert(k == 2);
            assert(t[i + 0] == e0[0] && t[i + 1] == e0[1]);
            assert(e0[0] == '\\');
            let x = e0[1];
            assert(is_simple_escape(x));
            assert(unescape_simple(x) == c);
        } else if (c as u32) < 0x20 {
            assert(k == 6);
            assert(t[i + 0] == e0[0] && t[i + 1] == e0[1] && t[i + 2] == e0[2] && t[i + 3]
                == e0[3] && t[i + 4] == e0[4] && t[i + 5] == e0[5]);
            let code = c as u32 as int;
            assert(e0[0] == '\\' && e0[1] == 'u' && e0[2] == '0' && e0[3] == '0');
            assert(e0[4] == hexdig(code / 16));
            assert(e0[5] == hexdig(code % 16));
            lemma_hex_val_hexdig(code / 16);
            lemma_hex_val_hexdig(code % 16);
            assert(hex_val('0') == 0);
            assert(is_hex4(t, i + 2)) by {
                assert(t[(i + 2) + 0] == t[i + 2] && t[(i + 2) + 1] == t[i + 3] && t[(i + 2) + 2]
                    == t[i + 4] && t[(i + 2) + 3] == t[i + 5]);
            }
            assert(hex4_val(t, i + 2) == (code / 16) * 16 + code % 16) by {
                assert(t[(i + 2) + 0] == t[i + 2] && t[(i + 2) + 1] == t[i + 3] && t[(i + 2) + 2]
                    == t[i + 4] && t[(i + 2) + 3] == t[i + 5]);
            }
            assert((code / 16) * 16 + code % 16 == code);
            assert(hex4_val(t, i + 2) < 0xD800);
            vstd::utf8::char_u32_cast(c, code as u32);
            assert(((code as u32) as char) == c);
        } else {
            assert(k == 1);
            assert(t[i + 0] == c);
            assert(c != '"' && c != '\\');
            assert(!((c as u32) < 0x20));
        }
    }
}

pub proof fn lemma_parse_string_round(t: Seq<char>, i: int, s: Seq<char>)
    requires
        0 <= i,
        i + json_quoted(s).len() <= t.len(),
        forall|k: int| 0 <= k < json_quoted(s).len() ==> #[trigger] t[i + k] == json_quoted(s)[k],
    ensures
        parse_string(t, i) == Some((s, i + json_quoted(s).len())),
{
    let l = escape_seq(s).len() as int;
    assert(json_quoted(s).len() == l + 2);
    assert(t[i + 0] == '"');
    assert forall|k: int| 0 <= k < l implies #[trigger] t[(i + 1) + k] == escape_seq(s)[k] by {
        assert(t[i + (1 + k)] == json_quoted(s)[1 + k]);
        assert(json_quoted(s)[1 + k] == escape_seq(s)[k]);
        assert(i + (1 + k) == (i + 1) + k);
    }
    assert(t[(i + 1) + l] == '"') by {
        assert(t[i + (l + 1)] == json_quoted(s)[l + 1]);
        assert(json_quoted(s)[l + 1] == '"');
    }
    lemma_parse_string_body_round(t, i + 1, s);
}

pub proof fn lemma_parse_number_round(t: Seq<char>, i: int, v: int)
    requires
        0 <= i,
        i + int_text(v).len() < t.len(),
        forall|k: int| 0 <= k < int_text(v).len() ==> #[trigger] t[i + k] == int_text(v)[k],
        t[i + int_text(v).len()] == '}',
        i64::MIN <= v <= i64::MAX,
    ensures
        parse_number(t, i) == Some((Some(v as i64), i + int_text(v).len())),
{
    let txt = int_text(v);
    let m = if v < 0 {
        (-v) as nat
    } else {
        v as nat
    };
    lemma_dec_digits(m);
    let dd = dec_digits(m);
    let l = dd.len() as int;
    let j0 = if v < 0 {
        i + 1
    } else {
        i
    };
    if v < 0 {
        assert(txt == seq!['-'] + dd);
        assert(t[i + 0] == '-');
        assert(forall|k: int| 0 <= k < l ==> txt[1 + k] == dd[k]);
        assert forall|k: int| j0 <= k < j0 + l implies is_digit_char(#[trigger] t[k]) by {
            assert(t[i + (k - i)] == txt[k - i]);
            assert(txt[k - i] == dd[k - j0]);
        }
        assert(t[j0 + l] == '}') by {
            assert(t[i + (l + 1)] == '}');
        }
    } else {
        assert(txt == dd);
        assert forall|k: int| j0 <= k < j0 + l implies is_digit_char(#[trigger] t[k]) by {
            assert(t[i + (k - i)] == txt[k - i]);
        }
        assert(t[j0 + l] == '}') by {
            assert(t[i + (l + 0)] == '}');
        }
        assert(t[i + 0] == dd[0]);
        assert(is_digit_char(t[i + 0]));
        assert(t[i + 0] != '-');
    }
    assert(!is_digit_char('}'));
    lemma_digits_end_run(t, j0, j0 + l);
    if m < 10 && dd[0] == '0' {
        // the single digit zero
        assert(m == 0);
        assert(v == 0);
        assert(t[j0 + 0] == '0');
        lemma_finish_round(t, false, 0, j0 + 1);
        assert(j0 + 1 == i + txt.len());
    } else {
        assert(m >= 1);
        assert(dd[0] != '0');
        assert(t[j0 + 0] == dd[0]);
        let e = j0 + l;
        assert(digits_end(t, j0) == e);
        assert forall|k: int| 0 <= k < l implies t.subrange(j0, e)[k] == dd[k] by {
            assert(t[j0 + k] == dd[k]) by {
                if v < 0 {
                    assert(t[i + (1 + k)] == txt[1 + k]);
                } else {
                    assert(t[i + (k + 0)] == txt[k]);
                }
            }
        }
        assert(t.subrange(j0, e) =~= dd);
        assert(digits_val_of(t.subrange(j0, e)) == m);
        lemma_finish_round(t, v < 0, m as int, e);
        assert(e == i + txt.len());
    }
}

proof fn lemma_finish_round(t: Seq<char>, neg: bool, mag: int, p: int)
    requires
        0 <= p < t.len(),
        t[p] == '}',
        i64::MIN <= (if neg {
            -mag
        } else {
            mag
        }) <= i64::MAX,
    ensures
        finish_number(t, neg, mag, p) == Some(
            (
                Some(
                    (if neg {
                        -mag
                    } else {
                        mag
                    }) as i64,
                ),
                p,
            ),
        ),
{
}

/// The part of one record after its opening brace: the payload and write
/// time fields, and the closing brace.
pub open spec fn record_body_text(e: EntryView) -> Seq<char> {
    json_quoted(value_field()) + seq![':'] + json_quoted(e.value) + seq![','] + json_quoted(
        created_field(),
    ) + seq![':'] + int_text(e.created_at) + seq!['}']
}

pub proof fn lemma_record_text_split(key: Seq<char>, e: EntryView)
    ensures
        record_text(key, e) == json_quoted(key) + seq![':', '{'] + record_body_text(e),
{
    assert(record_text(key, e) =~= json_quoted(key) + seq![':', '{'] + record_body_text(e));
}

proof fn lemma_fields_distinct()
    ensures
        value_field() != created_field(),
{
    assert(value_field().len() == 5);
    assert(created_field().len() == 10);
}

#[verifier::rlimit(100)]
#[verifier::spinoff_prover]
proof fn lemma_record_layout(t: Seq<char>, i: int, e: EntryView)
    requires
        0 <= i,
        i + record_body_text(e).len() <= t.len(),
        forall|k: int| 0 <= k < record_body_text(e).len() ==> #[trigger] t[i + k]
            == record_body_text(e)[k],
    ensures
        ({
            let l1 = json_quoted(value_field()).len() as int;
            let l2 = json_quoted(e.value).len() as int;
            let l3 = json_quoted(created_field()).len() as int;
            let l4 = int_text(e.created_at).len() as int;
            &&& parse_string(t, i) == Some((value_field(), i + l1))
            &&& t[i + l1] == ':'
            &&& t[i + l1 + 1] == '"'
            &&& parse_string(t, i + l1 + 1) == Some((e.value, i + l1 + 1 + l2))
            &&& t[i + l1 + 1 + l2] == ','
            &&& (forall|k: int| 0 <= k < l3 ==> #[trigger] t[(i + l1 + l2 + 2) + k]
                == json_quoted(created_field())[k])
            &&& t[i + l1 + l2 + l3 + 2] == ':'
            &&& (forall|k: int| 0 <= k < l4 ==> #[trigger] t[(i + l1 + l2 + l3 + 3) + k]
                == int_text(e.created_at)[k])
            &&& t[i + l1 + l2 + l3 + l4 + 3] == '}'
        }),
{
    lemma_fields_distinct();
    let body = record_body_text(e);
    let q1 = json_quoted(value_field());
    let q2 = json_quoted(e.value);
    let q3 = json_quoted(created_field());
    let it = int_text(e.created_at);
    let l1 = q1.len() as int;
    let l2 = q2.len() as int;
    let l3 = q3.len() as int;
    let l4 = it.len() as int;
    assert(body.len() == l1 + l2 + l3 + l4 + 4);
    assert forall|k: int| 0 <= k < l1 implies #[trigger] t[i + k] == q1[k] by {
        assert(body[k] == q1[k]);
    }
    lemma_parse_string_round(t, i, value_field());
    assert(t[i + l1] == ':') by {
        assert(body[l1] == ':');
    }
    let m1 = i + l1 + 1;
    assert forall|k: int| 0 <= k < l2 implies #[trigger] t[m1 + k] == q2[k] by {
        assert(t[i + (l1 + 1 + k)] == body[l1 + 1 + k]);
        assert(body[l1 + 1 + k] == q2[k]);
        assert(i + (l1 + 1 + k) == m1 + k);
    }
    assert(t[i + l1 + 1] == '"') by {
        assert(t[m1 + 0] == q2[0]);
    }
    lemma_parse_string_round(t, m1, e.value);
    assert(t[i + l1 + 1 + l2] == ',') by {
        assert(t[i + (l1 + 1 + l2)] == body[l1 + 1 + l2]);
        assert(body[l1 + 1 + l2] == ',');
    }
    let m2 = i + l1 + l2 + 2;
    assert forall|k: int| 0 <= k < l3 implies #[trigger] t[m2 + k] == q3[k] by {
        assert(t[i + (l1 + l2 + 2 + k)] == body[l1 + l2 + 2 + k]);
        assert(body[l1 + l2 + 2 + k] == q3[k]);
        assert(i + (l1 + l2 + 2 + k) == m2 + k);
    }
    assert(t[i + l1 + l2 + l3 + 2] == ':') by {
        assert(t[i + (l1 + l2 + l3 + 2)] == body[l1 + l2 + l3 + 2]);
        assert(body[l1 + l2 + l3 + 2] == ':');
    }
    let m3 = i + l1 + l2 + l3 + 3;
    assert forall|k: int| 0 <= k < l4 implies #[trigger] t[m3 + k] == it[k] by {
        assert(t[i + (l1 + l2 + l3 + 3 + k)] == body[l1 + l2 + l3 + 3 + k]);
        assert(body[l1 + l2 + l3 + 3 + k] == it[k]);
        assert(i + (l1 + l2 + l3 + 3 + k) == m3 + k);
    }
    assert(t[i + l1 + l2 + l3 + l4 + 3] == '}') by {
        assert(t[i + (l1 + l2 + l3 + l4 + 3)] == body[l1 + l2 + l3 + l4 + 3]);
        assert(body[l1 + l2 + l3 + l4 + 3] == '}');
    }
}

#[verifier::rlimit(100)]
#[verifier::spinoff_prover]
pub proof fn lemma_parse_record_members_round(t: Seq<char>, i: int, e: EntryView, fuel: nat)
    requires
        i64::MIN <= e.created_at <= i64::MAX,
        0 <= i,
        i + record_body_text(e).len() <= t.len(),
        forall|k: int| 0 <= k < record_body_text(e).len() ==> #[trigger] t[i + k]
            == record_body_text(e)[k],
        fuel >= 3,
    ensures
        parse_record_members(
            t,
            i,
            fuel,
            RecFields { value: None, created_at: None },
        ) == Some(
            (
                RecFields { value: Some(e.value), created_at: Some(e.created_at as i64) },
                i + record_body_text(e).len(),
            ),
        ),
{
    lemma_fields_distinct();
    lemma_record_layout(t, i, e);
    let l1 = json_quoted(value_field()).len() as int;
    let l2 = json_quoted(e.value).len() as int;
    let l3 = json_quoted(created_field()).len() as int;
    let l4 = int_text(e.created_at).len() as int;
    assert(record_body_text(e).len() == l1 + l2 + l3 + l4 + 4);
    lemma_skip_ws_none(t, i + l1);
    lemma_skip_ws_none(t, i + l1 + 1);
    let p2 = i + l1 + 1 + l2;
    lemma_skip_ws_none(t, p2);
    let m2 = p2 + 1;
    assert(t[p2 + 1] == '"') by {
        assert(t[(i + l1 + l2 + 2) + 0] == json_quoted(created_field())[0]);
    }
    lemma_skip_ws_none(t, p2 + 1);
    assert(m2 == i + l1 + l2 + 2);
    assert forall|k: int| 0 <= k < l4 implies #[trigger] t[((i + l1 + l2 + 2) + json_quoted(
        created_field(),
    ).len() + 1) + k] == int_text(e.created_at)[k] by {
        assert(t[(i + l1 + l2 + l3 + 3) + k] == int_text(e.created_at)[k]);
        assert(((i + l1 + l2 + 2) + l3 + 1) + k == (i + l1 + l2 + l3 + 3) + k);
    }
    assert(t[(i + l1 + l2 + 2) + json_quoted(created_field()).len()] == ':');
    assert(t[(i + l1 + l2 + 2) + json_quoted(created_field()).len() + 1 + int_text(
        e.created_at,
    ).len()] == '}');
    lemma_record_second_member(
        t,
        i + l1 + l2 + 2,
        e,
        (fuel - 1) as nat,
        RecFields { value: Some(e.value), created_at: None },
    );
    assert(m2 + l3 + 1 + l4 + 1 == i + record_body_text(e).len());
}

#[verifier::rlimit(100)]
#[verifier::spinoff_prover]
proof fn lemma_record_second_member(t: Seq<char>, m2: int, e: EntryView, fuel: nat, acc: RecFields)
    requires
        i64::MIN <= e.created_at <= i64::MAX,
        0 <= m2,
        m2 + json_quoted(created_field()).len() + 1 + int_text(e.created_at).len() + 1 <= t.len(),
        forall|k: int| 0 <= k < json_quoted(created_field()).len() ==> #[trigger] t[m2 + k]
            == json_quoted(created_field())[k],
        t[m2 + json_quoted(created_field()).len()] == ':',
        forall|k: int| 0 <= k < int_text(e.created_at).len() ==> #[trigger] t[(m2 + json_quoted(
            created_field(),
        ).len() + 1) + k] == int_text(e.created_at)[k],
        t[m2 + json_quoted(created_field()).len() + 1 + int_text(e.created_at).len()] == '}',
        fuel >= 2,
        acc.value == Some(e.value),
    ensures
        parse_record_members(t, m2, fuel, acc) == Some(
            (
                RecFields { value: acc.value, created_at: Some(e.created_at as i64) },
                m2 + json_quoted(created_field()).len() + 1 + int_text(e.created_at).len() + 1,
            ),
        ),
{
    lemma_fields_distinct();
    let q3 = json_quoted(created_field());
    let it = int_text(e.created_at);
    let l3 = q3.len() as int;
    let l4 = it.len() as int;
    lemma_parse_string_round(t, m2, created_field());
    let p3 = m2 + l3;
    let m3 = p3 + 1;
    let p4 = m3 + l4;
    assert(t[m3 + 0] == it[0]);
    lemma_dec_digits(
        if e.created_at < 0 {
            (-e.created_at) as nat
        } else {
            e.created_at as nat
        },
    );
    assert(it[0] == '-' || is_digit_char(it[0]));
    assert(t[m3 + 0] != '"');
    lemma_skip_ws_none(t, p3);
    assert(t[p3 + 1] == it[0]);
    lemma_skip_ws_none(t, p3 + 1);
    lemma_parse_number_round(t, m3, e.created_at);
    lemma_skip_ws_none(t, p4);
    assert(parse_number(t, m3) == Some((Some(e.created_at as i64), p4)));
}

/// The record a written pair reads back as.
pub open spec fn rec_of_pair(p: PairView) -> RecView {
    RecView {
        key: p.key,
        kind: RecKind::Obj {
            value: Some(p.entry.value),
            created_at: Some(p.entry.created_at as i64),
        },
    }
}

/// The records a written sequence of pairs reads back as, in order.
pub open spec fn recs_of_pairs(ps: Seq<PairView>) -> Seq<RecView> {
    Seq::new(ps.len(), |j: int| rec_of_pair(ps[j]))
}

/// A pair as a real store holds it: the write time fits an i64, as every
/// stored entry's does.
pub open spec fn storable_pair(p: PairView) -> bool {
    i64::MIN <= p.entry.created_at <= i64::MAX
}

#[verifier::rlimit(100)]
#[verifier::spinoff_prover]
pub proof fn lemma_parse_top_member_round(t: Seq<char>, i: int, p: PairView, fuel: nat)
    requires
        storable_pair(p),
        0 <= i,
        i + record_text(p.key, p.entry).len() <= t.len(),
        forall|k: int| 0 <= k < record_text(p.key, p.entry).len() ==> #[trigger] t[i + k]
            == record_text(p.key, p.entry)[k],
        fuel >= 4,
    ensures
        parse_top_member(t, i, fuel) == Some(
            (rec_of_pair(p), i + record_text(p.key, p.entry).len()),
        ),
{
    reveal(parse_top_member);
    lemma_record_text_split(p.key, p.entry);
    let rt = record_text(p.key, p.entry);
    let qk = json_quoted(p.key);
    let lk = qk.len() as int;
    let body = record_body_text(p.entry);
    let lb = body.len() as int;
    assert(rt.len() == lk + 2 + lb);
    assert forall|k: int| 0 <= k < lk implies #[trigger] t[i + k] == qk[k] by {
        assert(rt[k] == qk[k]);
    }
    lemma_parse_string_round(t, i, p.key);
    assert(t[i + lk] == ':') by {
        assert(rt[lk] == ':');
    }
    assert(t[i + lk + 1] == '{') by {
        assert(t[i + (lk + 1)] == rt[lk + 1]);
        assert(rt[lk + 1] == '{');
    }
    let b0 = i + lk + 2;
    assert forall|k: int| 0 <= k < lb implies #[trigger] t[b0 + k] == body[k] by {
        assert(t[i + (lk + 2 + k)] == rt[lk + 2 + k]);
        assert(rt[lk + 2 + k] == body[k]);
        assert(i + (lk + 2 + k) == b0 + k);
    }
    lemma_fields_distinct();
    assert(t[b0 + 0] == '"') by {
        assert(body[0] == json_quoted(value_field())[0]);
    }
    lemma_skip_ws_none(t, i + lk);
    lemma_skip_ws_none(t, i + lk + 1);
    lemma_skip_ws_none(t, i + lk + 2);
    assert(t[i + lk + 2] == '"');
    lemma_parse_record_members_round(t, b0, p.entry, (fuel - 1) as nat);
    assert(b0 + lb == i + rt.len());
}

/// A sequence of pairs as a real store holds them.
pub open spec fn storable_pairs(ps: Seq<PairView>) -> bool {
    forall|j: int| 0 <= j < ps.len() ==> storable_pair(#[trigger] ps[j])
}

#[verifier::rlimit(100)]
#[verifier::spinoff_prover]
pub proof fn lemma_parse_top_members_round(t: Seq<char>, i: int, ps: Seq<PairView>, fuel: nat)
    requires
        ps.len() >= 1,
        storable_pairs(ps),
        0 <= i,
        i + records_text(ps).len() + 1 <= t.len(),
        forall|k: int| 0 <= k < records_text(ps).len() ==> #[trigger] t[i + k]
            == records_text(ps)[k],
        t[i + records_text(ps).len()] == '}',
        fuel >= ps.len() + 3,
    ensures
        parse_top_members(t, i, fuel) == Some(
            (recs_of_pairs(ps), i + records_text(ps).len() + 1),
        ),
    decreases ps.len(),
{
    reveal(parse_top_members);
    let rt = records_text(ps);
    let p0 = ps[0];
    let r0 = record_text(p0.key, p0.entry);
    let l0 = r0.len() as int;
    assert(storable_pair(p0));
    if ps.len() == 1 {
        assert(rt == r0);
        lemma_parse_top_member_round(t, i, p0, fuel);
        lemma_skip_ws_none(t, i + l0);
        assert(t[i + l0] == '}');
        assert(seq![rec_of_pair(p0)] =~= recs_of_pairs(ps));
    } else {
        let rest = ps.drop_first();
        let rr = records_text(rest);
        assert(rt == r0 + seq![','] + rr);
        assert forall|k: int| 0 <= k < l0 implies #[trigger] t[i + k] == r0[k] by {
            assert(rt[k] == r0[k]);
        }
        lemma_parse_top_member_round(t, i, p0, fuel);
        let q = i + l0;
        assert(t[q] == ',') by {
            assert(t[i + (l0 + 0)] == rt[l0]);
            assert(rt[l0] == ',');
        }
        lemma_skip_ws_none(t, q);
        let n = q + 1;
        assert(storable_pairs(rest)) by {
            assert(forall|j: int| 0 <= j < rest.len() ==> rest[j] == ps[j + 1]);
        }
        assert forall|k: int| 0 <= k < rr.len() implies #[trigger] t[n + k] == rr[k] by {
            assert(t[i + (l0 + 1 + k)] == rt[l0 + 1 + k]);
            assert(rt[l0 + 1 + k] == rr[k]);
            assert(i + (l0 + 1 + k) == n + k);
        }
        assert(t[n + rr.len()] == '}') by {
            assert(i + rt.len() == n + rr.len());
        }
        assert(rest.len() >= 1);
        assert(rr.len() >= 1) by {
            lemma_records_text_len(rest);
        }
        assert(t[n + 0] == '"') by {
            assert(rr[0] == records_text(rest)[0]);
            lemma_records_text_first(rest);
        }
        lemma_skip_ws_none(t, n);
        lemma_parse_top_members_round(t, n, rest, (fuel - 1) as nat);
        assert(seq![rec_of_pair(p0)] + recs_of_pairs(rest) =~= recs_of_pairs(ps)) by {
            assert(forall|j: int| 0 <= j < rest.len() ==> rest[j] == ps[j + 1]);
        }
        assert(n + rr.len() + 1 == i + rt.len() + 1);
    }
}

proof fn lemma_records_text_len(ps: Seq<PairView>)
    requires
        ps.len() >= 1,
    ensures
        records_text(ps).len() >= 1,
        records_text(ps)[0] == '"',
    decreases ps.len(),
{
    let r0 = record_text(ps[0].key, ps[0].entry);
    assert(r0[0] == json_quoted(ps[0].key)[0]);
    assert(r0[0] == '"');
    if ps.len() == 1 {
    } else {
        assert(records_text(ps)[0] == r0[0]);
    }
}

proof fn lemma_records_text_first(ps: Seq<PairView>)
    requires
        ps.len() >= 1,
    ensures
        records_text(ps)[0] == '"',
{
    lemma_records_text_len(ps);
}

#[verifier::rlimit(60)]
proof fn lemma_apply_pairs(ps: Seq<PairView>, m: Map<Seq<char>, EntryView>, now: int)
    requires
        pairs_match_map(ps, m),
        storable_pairs(ps),
    ensures
        spec_apply_records(recs_of_pairs(ps), None, now) == m,
    decreases ps.len(),
{
    let recs = recs_of_pairs(ps);
    assert(recs.len() == ps.len());
    if ps.len() == 0 {
        m.dom().lemma_len0_is_empty();
        assert(m =~= Map::<Seq<char>, EntryView>::empty());
        assert(recs =~= Seq::<RecView>::empty());
    } else {
        let last = ps[ps.len() - 1];
        let k = last.key;
        assert(m.contains_key(k) && m[k] == last.entry);
        let dl = ps.drop_last();
        let m2 = m.remove(k);
        assert(forall|j: int| 0 <= j < dl.len() ==> dl[j] == ps[j]);
        assert forall|j: int| #![trigger dl[j]] 0 <= j < dl.len() implies m2.contains_key(
            dl[j].key,
        ) && m2[dl[j].key] == dl[j].entry by {
            assert(dl[j].key != k);
        }
        assert forall|k2: Seq<char>| m2.contains_key(k2) implies exists|j: int|
            0 <= j < dl.len() && (#[trigger] dl[j]).key == k2 by {
            assert(m.contains_key(k2));
            let j = choose|j: int| 0 <= j < ps.len() && (#[trigger] ps[j]).key == k2;
            assert(j != ps.len() - 1);
            assert(dl[j].key == k2);
        }
        assert(m2.dom() =~= m.dom().remove(k));
        assert(m2.dom().len() == m.dom().len() - 1);
        assert(pairs_match_map(dl, m2));
        assert(storable_pairs(dl));
        lemma_apply_pairs(dl, m2, now);
        assert(recs.drop_last() =~= recs_of_pairs(dl));
        let rec = recs[recs.len() - 1];
        assert(rec == rec_of_pair(last));
        assert(spec_apply_records(recs, None, now) == spec_apply_records(
            recs.drop_last(),
            None,
            now,
        ).insert(k, EntryView { value: last.entry.value, created_at: last.entry.created_at }));
        assert(EntryView { value: last.entry.value, created_at: last.entry.created_at }
            == last.entry);
        assert(m2.insert(k, m[k]) =~= m);
    }
}

/// Snapshot fidelity: a saved snapshot, loaded back with no retention
/// window, reproduces the store exactly -- same keys, same payloads, same
/// write times, for any key and payload text -- whatever the load time.
/// The two hypotheses are machine bounds every real store meets: write
/// times fit an i64, and the key count leaves the parser fuel headroom.
#[verifier::rlimit(60)]
pub proof fn lemma_snapshot_fidelity(ps: Seq<PairView>, m: Map<Seq<char>, EntryView>, now: int)
    requires
        pairs_match_map(ps, m),
        storable_pairs(ps),
        ps.len() + 3 <= snapshot_fuel(),
    ensures
        spec_parse_snapshot(snapshot_text(ps)) == Some(recs_of_pairs(ps)),
        spec_apply_records(recs_of_pairs(ps), None, now) == m,
{
    lemma_apply_pairs(ps, m, now);
    let t = snapshot_text(ps);
    let rt = records_text(ps);
    let l = rt.len() as int;
    assert(t.len() == l + 2);
    assert(t[0] == '{');
    lemma_skip_ws_none(t, 0);
    assert(forall|k: int| 0 <= k < l ==> t[1 + k] == rt[k]);
    assert(t[1 + l] == '}');
    if ps.len() == 0 {
        assert(l == 0);
        assert(t[1] == '}');
        lemma_skip_ws_none(t, 1);
        lemma_skip_ws_none(t, 2);
        assert(skip_ws(t, 2) == t.len());
        assert(recs_of_pairs(ps) =~= Seq::<RecView>::empty());
    } else {
        lemma_records_text_first(ps);
        assert(t[1] == '"') by {
            assert(t[(1 as int) + 0] == rt[0]);
        }
        lemma_skip_ws_none(t, 1);
        assert forall|k: int| 0 <= k < l implies #[trigger] t[1 + k] == rt[k] by {}
        lemma_parse_top_members_round(t, 1, ps, snapshot_fuel());
        assert(1 + l + 1 == t.len());
        lemma_skip_ws_none(t, t.len() as int);
    }
}

} // verus!
