use vstd::prelude::*;

use crate::json_text::json_quoted;
use crate::json_text::str_to_chars;
use crate::trusted::{chars_to_string, now_rfc3339};

verus! {

/// A registered interest in updates to one key, identified by a
/// server-assigned id and delivered to a callback address.
pub struct Subscription {
    pub id: u64,
    pub key: String,
    pub callback: String,
}

/// Mathematical image of a [`Subscription`].
pub ghost struct SubscriptionView {
    pub id: u64,
    pub key: Seq<char>,
    pub callback: Seq<char>,
}

impl View for Subscription {
    type V = SubscriptionView;

    open spec fn view(&self) -> SubscriptionView {
        SubscriptionView { id: self.id, key: self.key@, callback: self.callback@ }
    }
}

impl Clone for Subscription {
    fn clone(&self) -> (r: Self)
        ensures
            r == *self,
    {
        Subscription { id: self.id, key: self.key.clone(), callback: self.callback.clone() }
    }
}

/// What a subscribe call carries: the key of interest and the callback
/// address. The id is assigned by the registry, never by the caller.
pub struct SubscribeRequest {
    pub key: String,
    pub callback: String,
}

/// The live subscriptions, keyed by a monotonically increasing id that
/// starts at 1 and is never reused, not even after removal.
pub struct SubscriptionRegistry {
    subs: Vec<Subscription>,
    next_id: u64,
}

spec fn subs_map(s: Seq<Subscription>) -> Map<u64, SubscriptionView>
    decreases s.len(),
{
    if s.len() == 0 {
        Map::empty()
    } else {
        subs_map(s.drop_last()).insert(s.last().id, s.last()@)
    }
}

spec fn unique_ids(s: Seq<Subscription>) -> bool {
    forall|i: int, j: int| 0 <= i < j < s.len() ==> s[i].id != s[j].id
}

proof fn lemma_subs_map_contains(s: Seq<Subscription>, id: u64)
    ensures
        subs_map(s).contains_key(id) <==> exists|i: int| 0 <= i < s.len() && s[i].id == id,
    decreases s.len(),
{
    if s.len() > 0 {
        lemma_subs_map_contains(s.drop_last(), id);
        if s.last().id == id {
            assert(s[s.len() - 1].id == id);
        } else {
            if subs_map(s).contains_key(id) {
                let i = choose|i: int| 0 <= i < s.drop_last().len() && s.drop_last()[i].id == id;
                assert(s[i].id == id);
            }
            if exists|i: int| 0 <= i < s.len() && s[i].id == id {
                let i = choose|i: int| 0 <= i < s.len() && s[i].id == id;
                assert(i < s.len() - 1);
                assert(s.drop_last()[i].id == id);
            }
        }
    }
}

proof fn lemma_subs_map_value(s: Seq<Subscription>, i: int)
    requires
        unique_ids(s),
        0 <= i < s.len(),
    ensures
        subs_map(s).contains_key(s[i].id),
        subs_map(s)[s[i].id] == s[i]@,
    decreases s.len(),
{
    if i == s.len() - 1 {
    } else {
        assert(unique_ids(s.drop_last()));
        assert(s.drop_last()[i] == s[i]);
        lemma_subs_map_value(s.drop_last(), i);
        assert(s[i].id != s.last().id);
    }
}

proof fn lemma_subs_map_push(s: Seq<Subscription>, x: Subscription)
    ensures
        subs_map(s.push(x)) == subs_map(s).insert(x.id, x@),
{
    assert(s.push(x).drop_last() =~= s);
    assert(s.push(x).last() == x);
}

proof fn lemma_subs_map_remove(s: Seq<Subscription>, i: int)
    requires
        unique_ids(s),
        0 <= i < s.len(),
    ensures
        unique_ids(s.remove(i)),
        subs_map(s.remove(i)) == subs_map(s).remove(s[i].id),
    decreases s.len(),
{
    let r = s.remove(i);
    assert(forall|j: int| 0 <= j < i ==> r[j] == s[j]);
    assert(forall|j: int| i <= j < r.len() ==> r[j] == s[j + 1]);
    assert(unique_ids(r));
    assert forall|id: u64|
        subs_map(r).contains_key(id) <==> subs_map(s).remove(s[i].id).contains_key(id) by {
        lemma_subs_map_contains(r, id);
        lemma_subs_map_contains(s, id);
        if subs_map(r).contains_key(id) {
            let j = choose|j: int| 0 <= j < r.len() && r[j].id == id;
            if j < i {
                assert(s[j].id == id);
            } else {
                assert(s[j + 1].id == id);
            }
            assert(id != s[i].id);
        }
        if subs_map(s).remove(s[i].id).contains_key(id) {
            let j = choose|j: int| 0 <= j < s.len() && s[j].id == id;
            assert(j != i);
            if j < i {
                assert(r[j].id == id);
            } else {
                assert(r[j - 1].id == id);
            }
        }
    }
    assert forall|id: u64| #[trigger] subs_map(r).contains_key(id) implies subs_map(r)[id]
        == subs_map(s).remove(s[i].id)[id] by {
        lemma_subs_map_contains(r, id);
        let j = choose|j: int| 0 <= j < r.len() && r[j].id == id;
        lemma_subs_map_value(r, j);
        if j < i {
            lemma_subs_map_value(s, j);
        } else {
            lemma_subs_map_value(s, j + 1);
        }
    }
    assert(subs_map(r) =~= subs_map(s).remove(s[i].id));
}

/// What a correct fan-out for `key` looks like: exactly the subscriptions
/// whose key matches, each id once.
pub open spec fn fanout_ok(
    m: Map<u64, SubscriptionView>,
    key: Seq<char>,
    subs: Seq<Subscription>,
) -> bool {
    &&& forall|a: int| #![trigger subs[a]] 0 <= a < subs.len() ==> m.contains_key(subs[a].id)
        && m[subs[a].id] == subs[a]@ && subs[a].key@ == key
    &&& forall|id: u64| m.contains_key(id) && (#[trigger] m[id]).key == key ==> exists|a: int|
        0 <= a < subs.len() && (#[trigger] subs[a]).id == id
    &&& forall|a: int, b: int| 0 <= a < b < subs.len() ==> subs[a].id != subs[b].id
}

impl SubscriptionRegistry {
    /// The live subscriptions by id.
    pub closed spec fn view(&self) -> Map<u64, SubscriptionView> {
        subs_map(self.subs@)
    }

    /// The id the next subscribe call will assign.
    pub closed spec fn next_id_spec(&self) -> u64 {
        self.next_id
    }

    /// Internal validity: ids are unique, start at 1, and stay below the
    /// counter, so an id is never handed out twice.
    pub closed spec fn wf(&self) -> bool {
        &&& unique_ids(self.subs@)
        &&& self.next_id >= 1
        &&& forall|i: int| 0 <= i < self.subs@.len() ==> 1 <= #[trigger] self.subs@[i].id
            < self.next_id
    }

    /// The id the next subscribe call will assign; callers that must not
    /// exhaust the id space can test it before subscribing.
    pub fn next_id(&self) -> (r: u64)
        ensures
            r == self.next_id_spec(),
    {
        self.next_id
    }

    /// A fresh registry with no subscriptions; ids start at 1.
    pub fn new() -> (r: SubscriptionRegistry)
        ensures
            r.wf(),
            r@ == Map::<u64, SubscriptionView>::empty(),
            r.next_id_spec() == 1,
    {
        SubscriptionRegistry { subs: Vec::new(), next_id: 1 }
    }

    /// Register an interest; the assigned id is returned. The same key and
    /// callback may be registered many times, each under its own id.
    pub fn subscribe(&mut self, req: SubscribeRequest) -> (id: u64)
        requires
            old(self).wf(),
            old(self).next_id_spec() < u64::MAX,
        ensures
            final(self).wf(),
            id == old(self).next_id_spec(),
            !old(self)@.contains_key(id),
            final(self)@ == old(self)@.insert(
                id,
                SubscriptionView { id, key: req.key@, callback: req.callback@ },
            ),
            final(self).next_id_spec() == old(self).next_id_spec() + 1,
    {
        let ghost s0 = self.subs@;
        let id = self.next_id;
        self.next_id = self.next_id + 1;
        let sub = Subscription { id, key: req.key, callback: req.callback };
        proof {
            lemma_subs_map_contains(s0, id);
        }
        self.subs.push(sub);
        proof {
            lemma_subs_map_push(s0, self.subs@.last());
            assert(forall|j: int| 0 <= j < s0.len() ==> self.subs@[j] == s0[j]);
            assert(unique_ids(self.subs@));
        }
        id
    }

    /// Remove the subscription if it exists, and report whether it did.
    /// A second call with the same id reports that it did not.
    pub fn unsubscribe(&mut self, id: u64) -> (existed: bool)
        requires
            old(self).wf(),
        ensures
            final(self).wf(),
            existed == old(self)@.contains_key(id),
            final(self)@ == old(self)@.remove(id),
            final(self).next_id_spec() == old(self).next_id_spec(),
    {
        let ghost s0 = self.subs@;
        proof {
            lemma_subs_map_contains(s0, id);
        }
        match self.find_by_id(id) {
            Some(i) => {
                self.subs.remove(i);
                proof {
                    lemma_subs_map_remove(s0, i as int);
                }
                true
            },
            None => {
                proof {
                    assert(subs_map(s0).remove(id) =~= subs_map(s0));
                }
                false
            },
        }
    }

    fn find_by_id(&self, id: u64) -> (r: Option<usize>)
        ensures
            match r {
                Some(i) => i < self.subs@.len() && self.subs@[i as int].id == id,
                None => forall|i: int| 0 <= i < self.subs@.len() ==> self.subs@[i].id != id,
            },
    {
        let mut j: usize = 0;
        while j < self.subs.len()
            invariant
                j <= self.subs@.len(),
                forall|i: int| 0 <= i < j ==> self.subs@[i].id != id,
            decreases self.subs@.len() - j,
        {
            if self.subs[j].id == id {
                return Some(j);
            }
            j += 1;
        }
        None
    }

    /// The subscriptions whose key is exactly `key`, each id once, in
    /// unspecified order: the deliveries one update to `key` fans out to.
    #[verifier::rlimit(80)]
    pub fn subscriptions_for(&self, key: &String) -> (r: Vec<Subscription>)
        requires
            self.wf(),
        ensures
            fanout_ok(self@, key@, r@),
    {
        let ghost s0 = self.subs@;
        let mut r: Vec<Subscription> = Vec::new();
        let mut j: usize = 0;
        while j < self.subs.len()
            invariant
                self.wf(),
                j <= self.subs@.len(),
                self.subs@ == s0,
                forall|a: int| #![trigger r@[a]] 0 <= a < r@.len() ==> (exists|i: int|
                    0 <= i < j && r@[a] == #[trigger] s0[i]) && r@[a].key@ == key@,
                forall|i: int| #![trigger s0[i]] 0 <= i < j && s0[i].key@ == key@ ==> exists|a: int|
                    0 <= a < r@.len() && #[trigger] r@[a] == s0[i],
                forall|a: int, b: int| 0 <= a < b < r@.len() ==> r@[a].id != r@[b].id,
            decreases self.subs@.len() - j,
        {
            let ghost r0 = r@;
            let matched = self.subs[j].key.eq(key);
            if matched {
                let c = self.subs[j].clone();
                r.push(c);
            }
            proof {
                if matched {
                    assert(r@ == r0.push(s0[j as int]));
                } else {
                    assert(r@ == r0);
                }
                assert forall|a: int| #![trigger r@[a]] 0 <= a < r@.len() implies (exists|i: int|
                    0 <= i < j + 1 && r@[a] == #[trigger] s0[i]) && r@[a].key@ == key@ by {
                    if a < r0.len() {
                        assert(r@[a] == r0[a]);
                        let i = choose|i: int| 0 <= i < j && r0[a] == #[trigger] s0[i];
                        assert(0 <= i < j + 1 && r@[a] == s0[i]);
                    } else {
                        assert(r@[a] == s0[j as int]);
                    }
                }
                assert forall|i: int| #![trigger s0[i]]
                    0 <= i < j + 1 && s0[i].key@ == key@ implies exists|a: int|
                    0 <= a < r@.len() && #[trigger] r@[a] == s0[i] by {
                    if i < j {
                        let a = choose|a: int| 0 <= a < r0.len() && #[trigger] r0[a] == s0[i];
                        assert(r@[a] == s0[i]);
                    } else {
                        assert(matched);
                        assert(r@[r@.len() - 1] == s0[i]);
                    }
                }
                assert forall|a: int, b: int| 0 <= a < b < r@.len() implies r@[a].id
                    != r@[b].id by {
                    if b < r0.len() {
                        assert(r@[a] == r0[a] && r@[b] == r0[b]);
                    } else if matched && b == r@.len() - 1 {
                        assert(r@[a] == r0[a]);
                        let i = choose|i: int| 0 <= i < j && r0[a] == #[trigger] s0[i];
                        assert(s0[i].id != s0[j as int].id);
                    }
                }
            }
            j += 1;
        }
        proof {
            assert forall|a: int| #![trigger r@[a]] 0 <= a < r@.len() implies self@.contains_key(
                r@[a].id,
            ) && self@[r@[a].id] == r@[a]@ && r@[a].key@ == key@ by {
                let i = choose|i: int| 0 <= i < s0.len() && r@[a] == #[trigger] s0[i];
                lemma_subs_map_value(s0, i);
            }
            assert forall|id: u64|
                self@.contains_key(id) && (#[trigger] self@[id]).key == key@ implies exists|a: int|
                0 <= a < r@.len() && (#[trigger] r@[a]).id == id by {
                lemma_subs_map_contains(s0, id);
                let i = choose|i: int| 0 <= i < s0.len() && s0[i].id == id;
                lemma_subs_map_value(s0, i);
                assert(s0[i].key@ == key@);
                let a = choose|a: int| 0 <= a < r@.len() && #[trigger] r@[a] == s0[i];
                assert(r@[a].id == id);
            }
        }
        r
    }
}

/// The opening of the notification body, through the key field name.
pub open spec fn lit_body_head() -> Seq<char> {
    "{\"event\":\"update\",\"key\":"@
}

pub open spec fn lit_new_value() -> Seq<char> {
    ",\"new_value\":"@
}

pub open spec fn lit_old_value() -> Seq<char> {
    ",\"old_value\":"@
}

pub open spec fn lit_timestamp() -> Seq<char> {
    ",\"timestamp\":"@
}

pub open spec fn lit_null() -> Seq<char> {
    "null"@
}

/// The JSON body of one update notification: the key, the event tag, the
/// old payload (or null when there was none), the new payload, and a
/// timestamp. Payloads are already JSON and are spliced in as they stand.
pub open spec fn notification_body(
    key: Seq<char>,
    old_value: Option<Seq<char>>,
    new_value: Seq<char>,
    ts: Seq<char>,
) -> Seq<char> {
    lit_body_head() + json_quoted(key) + lit_new_value() + new_value + lit_old_value() + (match old_value {
        Some(o) => o,
        None => lit_null(),
    }) + lit_timestamp() + json_quoted(ts) + seq!['}']
}

/// The payload view of an optional prior value.
pub open spec fn opt_view(o: Option<&String>) -> Option<Seq<char>> {
    match o {
        Some(s) => Some(s@),
        None => None,
    }
}

fn push_chars(out: &mut Vec<char>, s: &Vec<char>)
    ensures
        final(out)@ == old(out)@ + s@,
{
    let mut j: usize = 0;
    while j < s.len()
        invariant
            j <= s@.len(),
            out@ == old(out)@ + s@.subrange(0, j as int),
        decreases s@.len() - j,
    {
        out.push(s[j]);
        proof {
            assert(s@.subrange(0, j as int + 1) =~= s@.subrange(0, j as int).push(s@[j as int]));
            assert(out@ =~= old(out)@ + s@.subrange(0, j as int + 1));
        }
        j += 1;
    }
    proof {
        assert(s@.subrange(0, s@.len() as int) =~= s@);
    }
}

fn push_lit(out: &mut Vec<char>, s: &str)
    ensures
        final(out)@ == old(out)@ + s@,
{
    let v = str_to_chars(s);
    push_chars(out, &v);
}

/// Build the notification body for one update.
pub fn build_notification_body(
    key: &String,
    old_value: Option<&String>,
    new_value: &String,
    timestamp: &String,
) -> (r: String)
    ensures
        r@ == notification_body(key@, opt_view(old_value), new_value@, timestamp@),
{
    let mut out: Vec<char> = Vec::new();
    push_lit(&mut out, "{\"event\":\"update\",\"key\":");
    let kc = str_to_chars(key.as_str());
    crate::json_text::push_quoted(&mut out, &kc);
    push_lit(&mut out, ",\"new_value\":");
    let nc = str_to_chars(new_value.as_str());
    push_chars(&mut out, &nc);
    push_lit(&mut out, ",\"old_value\":");
    match old_value {
        Some(o) => {
            let oc = str_to_chars(o.as_str());
            push_chars(&mut out, &oc);
        },
        None => {
            push_lit(&mut out, "null");
        },
    }
    push_lit(&mut out, ",\"timestamp\":");
    let tc = str_to_chars(timestamp.as_str());
    crate::json_text::push_quoted(&mut out, &tc);
    out.push('}');
    proof {
        assert(out@ =~= notification_body(key@, opt_view(old_value), new_value@, timestamp@));
    }
    chars_to_string(&out)
}

/// Decide the fan-out for an update of `key`: the matching subscriptions
/// and, when there are any, the body each delivery carries, stamped with
/// the current time. With no matching subscription no body is built.
pub fn notify_key_update(
    reg: &SubscriptionRegistry,
    key: &String,
    old_value: Option<&String>,
    new_value: &String,
) -> (r: (Vec<Subscription>, String))
    requires
        reg.wf(),
    ensures
        fanout_ok(reg@, key@, r.0@),
        r.0@.len() > 0 ==> exists|ts: Seq<char>|
            ts.len() > 0 && r.1@ == notification_body(key@, opt_view(old_value), new_value@, ts),
{
    let subs = reg.subscriptions_for(key);
    if subs.len() == 0 {
        (subs, String::new())
    } else {
        let ts = now_rfc3339();
        let body = build_notification_body(key, old_value, new_value, &ts);
        proof {
            assert(ts@.len() > 0 && body@ == notification_body(
                key@,
                opt_view(old_value),
                new_value@,
                ts@,
            ));
        }
        (subs, body)
    }
}

} // verus!
