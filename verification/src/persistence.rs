use vstd::prelude::*;

use crate::errors::DodoError;
use crate::json_text::{int_text, json_quoted, push_int, push_quoted};
use crate::snapshot::{
    created_field, parse_snapshot_chars, spec_parse_snapshot, value_field, views_of, RecKind,
    RecView, SnapKind, SnapRecord,
};
use crate::store::{fresh_at, Entry, EntryView, KvPair, KvStore, PairView};
use crate::json_text::str_to_chars;
use crate::trusted::{chars_to_string, now_timestamp};

verus! {

/// The pairs' mathematical images, in order.
pub open spec fn pair_views(s: Seq<KvPair>) -> Seq<PairView>
    decreases s.len(),
{
    if s.len() == 0 {
        Seq::empty()
    } else {
        pair_views(s.drop_last()).push(s.last()@)
    }
}

pub proof fn lemma_pair_views(s: Seq<KvPair>)
    ensures
        pair_views(s).len() == s.len(),
        forall|i: int| 0 <= i < s.len() ==> pair_views(s)[i] == s[i]@,
    decreases s.len(),
{
    if s.len() > 0 {
        lemma_pair_views(s.drop_last());
        assert(forall|i: int| 0 <= i < s.len() - 1 ==> s.drop_last()[i] == s[i]);
    }
}

/// How one record is written: the key, then an object with the payload and
/// the write time.
pub open spec fn record_text(key: Seq<char>, e: EntryView) -> Seq<char> {
    json_quoted(key) + seq![':', '{'] + json_quoted(value_field()) + seq![':'] + json_quoted(
        e.value,
    ) + seq![','] + json_quoted(created_field()) + seq![':'] + int_text(e.created_at) + seq!['}']
}

/// The records joined with commas, in order.
pub open spec fn records_text(ps: Seq<PairView>) -> Seq<char>
    decreases ps.len(),
{
    if ps.len() == 0 {
        Seq::empty()
    } else if ps.len() == 1 {
        record_text(ps[0].key, ps[0].entry)
    } else {
        record_text(ps[0].key, ps[0].entry) + seq![','] + records_text(ps.drop_first())
    }
}

pub proof fn lemma_records_text_push(ps: Seq<PairView>, p: PairView)
    requires
        ps.len() >= 1,
    ensures
        records_text(ps.push(p)) == records_text(ps) + seq![','] + record_text(p.key, p.entry),
    decreases ps.len(),
{
    let t = ps.push(p);
    assert(t[0] == ps[0]);
    if ps.len() == 1 {
        assert(t.drop_first() =~= seq![p]);
        assert(t.drop_first()[0] == p);
        assert(records_text(t.drop_first()) == record_text(p.key, p.entry));
    } else {
        assert(t.drop_first() =~= ps.drop_first().push(p));
        lemma_records_text_push(ps.drop_first(), p);
        assert(records_text(t) == record_text(ps[0].key, ps[0].entry) + seq![','] + (records_text(
            ps.drop_first(),
        ) + seq![','] + record_text(p.key, p.entry)));
        assert(record_text(ps[0].key, ps[0].entry) + seq![','] + (records_text(ps.drop_first())
            + seq![','] + record_text(p.key, p.entry)) =~= (record_text(ps[0].key, ps[0].entry)
            + seq![','] + records_text(ps.drop_first())) + seq![','] + record_text(
            p.key,
            p.entry,
        ));
    }
}

/// The whole snapshot: one JSON object holding every record.
pub open spec fn snapshot_text(ps: Seq<PairView>) -> Seq<char> {
    seq!['{'] + records_text(ps) + seq!['}']
}

/// Whether a sequence of pairs is exactly the content of `m`: every pair in
/// the map, every key of the map among the pairs, no key twice.
pub open spec fn pairs_match_map(ps: Seq<PairView>, m: Map<Seq<char>, EntryView>) -> bool {
    &&& m.dom().finite()
    &&& ps.len() == m.dom().len()
    &&& forall|i: int| #![trigger ps[i]] 0 <= i < ps.len() ==> m.contains_key(ps[i].key)
        && m[ps[i].key] == ps[i].entry
    &&& forall|k: Seq<char>| m.contains_key(k) ==> exists|i: int|
        0 <= i < ps.len() && (#[trigger] ps[i]).key == k
    &&& forall|i: int, j: int| 0 <= i < j < ps.len() ==> ps[i].key != ps[j].key
}

/// The retention window as a mathematical value.
pub open spec fn ret_of(o: Option<u64>) -> Option<int> {
    match o {
        Some(r) => Some(r as int),
        None => None,
    }
}

/// Whether a record written at `ca` is kept at `now` under the window.
pub open spec fn keep_rec(retention: Option<int>, now: int, ca: int) -> bool {
    match retention {
        None => true,
        Some(r) => now - ca <= r,
    }
}

/// What loading a sequence of records into an empty store leaves behind.
/// Records apply in order; a later record for the same key wins. Only the
/// two documented shapes load: an object with a string payload and an
/// integer write time, or a bare string stamped with the load time. A
/// malformed record -- an object missing either field or holding it with
/// the wrong type, or a value of any other shape -- is silently skipped,
/// and, like one outside the retention window, leaves the key absent even
/// when an earlier record put it there.
pub open spec fn spec_apply_records(
    recs: Seq<RecView>,
    retention: Option<int>,
    now: int,
) -> Map<Seq<char>, EntryView>
    decreases recs.len(),
{
    if recs.len() == 0 {
        Map::empty()
    } else {
        let m = spec_apply_records(recs.drop_last(), retention, now);
        let rec = recs.last();
        match rec.kind {
            RecKind::Skip => m.remove(rec.key),
            RecKind::Legacy(s) => {
                if keep_rec(retention, now, now) {
                    m.insert(rec.key, EntryView { value: s, created_at: now })
                } else {
                    m.remove(rec.key)
                }
            },
            RecKind::Obj { value, created_at } => {
                match (value, created_at) {
                    (Some(v), Some(ca)) => {
                        if keep_rec(retention, now, ca as int) {
                            m.insert(rec.key, EntryView { value: v, created_at: ca as int })
                        } else {
                            m.remove(rec.key)
                        }
                    },
                    _ => m.remove(rec.key),
                }
            },
        }
    }
}

fn apply_records(store: &mut KvStore, recs: Vec<SnapRecord>, retention: Option<u64>, now: i64)
    requires
        old(store).wf(),
    ensures
        final(store).wf(),
        final(store)@ == spec_apply_records(views_of(recs@), ret_of(retention), now as int),
{
    store.clear();
    let mut j: usize = 0;
    proof {
        crate::snapshot::lemma_views_of(recs@);
        assert(recs@.subrange(0, 0) =~= Seq::<SnapRecord>::empty());
        assert(views_of(recs@.subrange(0, 0)) =~= Seq::<RecView>::empty());
    }
    while j < recs.len()
        invariant
            store.wf(),
            j <= recs@.len(),
            store@ == spec_apply_records(
                views_of(recs@.subrange(0, j as int)),
                ret_of(retention),
                now as int,
            ),
        decreases recs@.len() - j,
    {
        let ghost pre = recs@.subrange(0, j as int);
        let ghost post = recs@.subrange(0, j as int + 1);
        proof {
            assert(post.drop_last() =~= pre);
            assert(post.last() == recs@[j as int]);
            assert(views_of(post).drop_last() =~= views_of(pre));
            assert(views_of(post).last() == recs@[j as int]@);
            assert(views_of(post) =~= views_of(pre).push(recs@[j as int]@));
        }
        let rec = &recs[j];
        match &rec.kind {
            SnapKind::Skip => {
                store.remove(&rec.key);
            },
            SnapKind::Legacy(s) => {
                proof {
                    assert(keep_rec(ret_of(retention), now as int, now as int)) by {
                        assert(match ret_of(retention) {
                            None => true,
                            Some(r) => r >= 0,
                        });
                    }
                }
                store.insert(rec.key.clone(), Entry { value: s.clone(), created_at: now });
            },
            SnapKind::Obj { value, created_at } => {
                match (value, created_at) {
                    (Some(v), Some(ca)) => {
                        let ca = *ca;
                        let keep = match retention {
                            None => true,
                            Some(r) => (now as i128) - (ca as i128) <= (r as i128),
                        };
                        if keep {
                            store.insert(
                                rec.key.clone(),
                                Entry { value: v.clone(), created_at: ca },
                            );
                        } else {
                            store.remove(&rec.key);
                        }
                    },
                    _ => {
                        store.remove(&rec.key);
                    },
                }
            },
        }
        j += 1;
    }
    proof {
        assert(recs@.subrange(0, recs@.len() as int) =~= recs@);
    }
}

/// Replace the store with the records of `text`, read at time `now`:
/// current-format records keep their write time, legacy records are stamped
/// `now`, and with a retention window every record older than the window is
/// dropped (the boundary itself is kept). A text that is not a JSON object
/// leaves the store untouched and reports the parse failure. On success the
/// number of keys loaded is returned.
pub fn load_snapshot_at(
    store: &mut KvStore,
    text: &str,
    retention: Option<u64>,
    now: i64,
) -> (r: Result<usize, DodoError>)
    requires
        old(store).wf(),
    ensures
        final(store).wf(),
        match spec_parse_snapshot(text@) {
            Some(recs) => final(store)@ == spec_apply_records(
                recs,
                ret_of(retention),
                now as int,
            ) && r == Ok::<usize, DodoError>(final(store)@.dom().len() as usize),
            None => final(store)@ == old(store)@ && r == Err::<usize, DodoError>(
                DodoError::SnapshotParse,
            ),
        },
{
    let chars = str_to_chars(text);
    match parse_snapshot_chars(&chars) {
        None => Err(DodoError::SnapshotParse),
        Some(recs) => {
            apply_records(store, recs, retention, now);
            Ok(store.len())
        },
    }
}

/// As [`load_snapshot_at`], with the load time read from the system clock.
pub fn load_snapshot(store: &mut KvStore, text: &str, retention: Option<u64>) -> (r: Result<
    usize,
    DodoError,
>)
    requires
        old(store).wf(),
    ensures
        final(store).wf(),
        match spec_parse_snapshot(text@) {
            Some(recs) => (exists|now: int|
                final(store)@ == spec_apply_records(recs, ret_of(retention), now)) && r
                == Ok::<usize, DodoError>(final(store)@.dom().len() as usize),
            None => final(store)@ == old(store)@ && r == Err::<usize, DodoError>(
                DodoError::SnapshotParse,
            ),
        },
{
    let now = now_timestamp();
    let r = load_snapshot_at(store, text, retention, now);
    proof {
        if spec_parse_snapshot(text@) is Some {
            assert(store@ == spec_apply_records(
                spec_parse_snapshot(text@).unwrap(),
                ret_of(retention),
                now as int,
            ));
        }
    }
    r
}

fn push_record(out: &mut Vec<char>, p: &KvPair)
    ensures
        final(out)@ == old(out)@ + record_text(p.key@, p.entry@),
{
    let ghost base = out@;
    let kc = str_to_chars(p.key.as_str());
    push_quoted(out, &kc);
    out.push(':');
    out.push('{');
    let vf = str_to_chars("value");
    proof {
        reveal_strlit("value");
        assert(vf@ =~= value_field());
    }
    push_quoted(out, &vf);
    out.push(':');
    let vc = str_to_chars(p.entry.value.as_str());
    push_quoted(out, &vc);
    out.push(',');
    let cf = str_to_chars("created_at");
    proof {
        reveal_strlit("created_at");
        assert(cf@ =~= created_field());
    }
    push_quoted(out, &cf);
    out.push(':');
    push_int(out, p.entry.created_at);
    out.push('}');
    proof {
        assert(out@ =~= base + record_text(p.key@, p.entry@));
    }
}

/// Serialize the store's content as one snapshot text: a JSON object with
/// one record per key, in the written order of some arrangement of exactly
/// the store's pairs.
pub fn save_snapshot(store: &KvStore) -> (r: String)
    requires
        store.wf(),
    ensures
        exists|ps: Seq<PairView>|
            r@ == snapshot_text(ps) && #[trigger] pairs_match_map(ps, store@),
{
    let pairs = store.pairs();
    let ghost psv = pair_views(pairs@);
    proof {
        lemma_pair_views(pairs@);
    }
    let mut out: Vec<char> = Vec::new();
    out.push('{');
    proof {
        assert(pairs@.subrange(0, 0) =~= Seq::<KvPair>::empty());
        assert(pair_views(pairs@.subrange(0, 0)) =~= Seq::<PairView>::empty());
        assert(out@ =~= seq!['{'] + records_text(pair_views(pairs@.subrange(0, 0))));
    }
    let mut j: usize = 0;
    while j < pairs.len()
        invariant
            j <= pairs@.len(),
            out@ == seq!['{'] + records_text(pair_views(pairs@.subrange(0, j as int))),
        decreases pairs@.len() - j,
    {
        let ghost pre = pairs@.subrange(0, j as int);
        let ghost post = pairs@.subrange(0, j as int + 1);
        proof {
            assert(post.drop_last() =~= pre);
            assert(post.last() == pairs@[j as int]);
            assert(pair_views(post).drop_last() =~= pair_views(pre));
            assert(pair_views(post).last() == pairs@[j as int]@);
            lemma_pair_views(post);
        }
        if j > 0 {
            out.push(',');
        }
        push_record(&mut out, &pairs[j]);
        proof {
            if j == 0 {
                assert(pair_views(post).len() == 1);
                assert(pair_views(post)[0] == pairs@[0]@);
                assert(records_text(pair_views(post)) == record_text(
                    pairs@[0]@.key,
                    pairs@[0]@.entry,
                ));
                assert(out@ =~= seq!['{'] + records_text(pair_views(post)));
            } else {
                assert(pair_views(post) =~= pair_views(pre).push(pairs@[j as int]@));
                lemma_records_text_push(pair_views(pre), pairs@[j as int]@);
                assert(out@ =~= seq!['{'] + records_text(pair_views(post)));
            }
        }
        j += 1;
    }
    out.push('}');
    proof {
        assert(pairs@.subrange(0, pairs@.len() as int) =~= pairs@);
        assert(out@ =~= snapshot_text(psv));
        lemma_pair_views(pairs@);
        assert forall|k: Seq<char>| store@.contains_key(k) implies exists|i: int|
            0 <= i < psv.len() && (#[trigger] psv[i]).key == k by {
            let i = choose|i: int| 0 <= i < pairs@.len() && (#[trigger] pairs@[i].key@) == k;
            assert(psv[i].key == k);
        }
        assert(pairs_match_map(psv, store@));
    }
    chars_to_string(&out)
}

/// The relation between a store and the same store after an expiration
/// sweep at time `now`: with a positive window, exactly the entries within
/// it remain, unchanged; a zero window is total expiry, and a tick removes
/// every entry present.
pub open spec fn purge_post(
    m0: Map<Seq<char>, EntryView>,
    m1: Map<Seq<char>, EntryView>,
    now: int,
    retention: int,
) -> bool {
    &&& forall|k: Seq<char>| m1.contains_key(k) <==> (m0.contains_key(k) && retention > 0
        && fresh_at(m0[k], now, retention))
    &&& forall|k: Seq<char>| #[trigger] m1.contains_key(k) ==> m1[k] == m0[k]
}

/// One tick of the cleanup sweep: remove every entry whose age at `now`
/// exceeds the retention window, and with a zero window every entry there
/// is; report how many were removed.
pub fn purge_expired_at(store: &mut KvStore, retention: u64, now: i64) -> (removed: usize)
    requires
        old(store).wf(),
    ensures
        final(store).wf(),
        purge_post(old(store)@, final(store)@, now as int, retention as int),
        final(store)@.dom().len() + removed == old(store)@.dom().len(),
{
    if retention == 0 {
        let n = store.len();
        store.clear();
        n
    } else {
        store.retain_fresh(now, retention)
    }
}

/// As [`purge_expired_at`], with the sweep time read from the system clock.
pub fn purge_expired(store: &mut KvStore, retention: u64) -> (removed: usize)
    requires
        old(store).wf(),
    ensures
        final(store).wf(),
        exists|now: int| #[trigger] purge_post(old(store)@, final(store)@, now, retention as int),
        final(store)@.dom().len() + removed == old(store)@.dom().len(),
{
    let now = now_timestamp();
    let removed = purge_expired_at(store, retention, now);
    proof {
        assert(purge_post(old(store)@, store@, now as int, retention as int));
    }
    removed
}

} // verus!
