use vstd::prelude::*;

use crate::store::{Entry, EntryView, KvStore};
use crate::trusted::{json_is_valid, json_wf, now_timestamp};

verus! {

/// One key with its decoded payload, as returned by [`get_all`].
pub struct KeyValue {
    pub key: String,
    pub value: String,
}

/// Mathematical image of a [`KeyValue`].
pub ghost struct KeyValueView {
    pub key: Seq<char>,
    pub value: Seq<char>,
}

impl View for KeyValue {
    type V = KeyValueView;

    open spec fn view(&self) -> KeyValueView {
        KeyValueView { key: self.key@, value: self.value@ }
    }
}

/// Create a new, empty store.
pub fn new_store() -> (r: KvStore)
    ensures
        r.wf(),
        r@ == Map::<Seq<char>, EntryView>::empty(),
{
    KvStore::new()
}

/// Store `value` under `key` with write time `now`. Reports the prior
/// payload when there was one and it decodes as JSON: that is what the
/// update notification carries as old value.
pub fn set_at(store: &mut KvStore, key: String, value: String, now: i64) -> (prior: Option<
    String,
>)
    requires
        old(store).wf(),
    ensures
        final(store).wf(),
        final(store)@ == old(store)@.insert(
            key@,
            EntryView { value: value@, created_at: now as int },
        ),
        match prior {
            Some(p) => old(store)@.contains_key(key@) && json_wf(old(store)@[key@].value) && p@
                == old(store)@[key@].value,
            None => !old(store)@.contains_key(key@) || !json_wf(old(store)@[key@].value),
        },
{
    let prior = match store.get(&key) {
        Some(e) => {
            let v = e.value.clone();
            if json_is_valid(&v) {
                Some(v)
            } else {
                None
            }
        },
        None => None,
    };
    store.insert(key, Entry { value, created_at: now });
    prior
}

/// As [`set_at`], with the write time read from the system clock.
pub fn set(store: &mut KvStore, key: String, value: String) -> (prior: Option<String>)
    requires
        old(store).wf(),
    ensures
        final(store).wf(),
        exists|t: int|
            final(store)@ == old(store)@.insert(
                key@,
                EntryView { value: value@, created_at: t },
            ),
        match prior {
            Some(p) => old(store)@.contains_key(key@) && json_wf(old(store)@[key@].value) && p@
                == old(store)@[key@].value,
            None => !old(store)@.contains_key(key@) || !json_wf(old(store)@[key@].value),
        },
{
    let now = now_timestamp();
    let prior = set_at(store, key, value, now);
    proof {
        assert(store@ == old(store)@.insert(
            key@,
            EntryView { value: value@, created_at: now as int },
        ));
    }
    prior
}

/// Read the payload stored under `key`. An absent key and a payload that no
/// longer decodes as JSON both read as nothing.
pub fn get(store: &KvStore, key: &String) -> (r: Option<String>)
    requires
        store.wf(),
    ensures
        match r {
            Some(v) => store@.contains_key(key@) && v@ == store@[key@].value && json_wf(
                store@[key@].value,
            ),
            None => !store@.contains_key(key@) || !json_wf(store@[key@].value),
        },
{
    match store.get(key) {
        Some(e) => {
            let v = e.value.clone();
            if json_is_valid(&v) {
                Some(v)
            } else {
                None
            }
        },
        None => None,
    }
}

/// Remove the key; removing an absent key changes nothing.
pub fn delete(store: &mut KvStore, key: &String)
    requires
        old(store).wf(),
    ensures
        final(store).wf(),
        final(store)@ == old(store)@.remove(key@),
{
    store.remove(key);
}

/// All keys, each exactly once, in unspecified order.
pub fn list(store: &KvStore) -> (r: Vec<String>)
    requires
        store.wf(),
    ensures
        r@.len() == store@.dom().len(),
        forall|i: int| 0 <= i < r@.len() ==> store@.contains_key(#[trigger] r@[i]@),
        forall|k: Seq<char>| store@.contains_key(k) ==> exists|i: int|
            0 <= i < r@.len() && #[trigger] r@[i]@ == k,
        forall|i: int, j: int| 0 <= i < j < r@.len() ==> r@[i]@ != r@[j]@,
{
    store.keys()
}

/// Every key whose payload still decodes as JSON, with that payload.
/// Entries whose payload fails to decode are left out.
#[verifier::rlimit(80)]
pub fn get_all(store: &KvStore) -> (r: Vec<KeyValue>)
    requires
        store.wf(),
    ensures
        forall|i: int| 0 <= i < r@.len() ==> store@.contains_key(#[trigger] r@[i].key@)
            && r@[i].value@ == store@[r@[i].key@].value && json_wf(store@[r@[i].key@].value),
        forall|k: Seq<char>|
            store@.contains_key(k) && json_wf(#[trigger] store@[k].value) ==> exists|i: int|
                0 <= i < r@.len() && #[trigger] r@[i].key@ == k,
        forall|i: int, j: int| 0 <= i < j < r@.len() ==> r@[i].key@ != r@[j].key@,
{
    let pairs = store.pairs();
    let mut r: Vec<KeyValue> = Vec::new();
    let mut j: usize = 0;
    while j < pairs.len()
        invariant
            store.wf(),
            j <= pairs@.len(),
            forall|i: int| 0 <= i < pairs@.len() ==> store@.contains_key(#[trigger] pairs@[i].key@)
                && store@[pairs@[i].key@] == pairs@[i].entry@,
            forall|k: Seq<char>| store@.contains_key(k) ==> exists|i: int|
                0 <= i < pairs@.len() && #[trigger] pairs@[i].key@ == k,
            forall|a: int, b: int| 0 <= a < b < pairs@.len() ==> pairs@[a].key@ != pairs@[b].key@,
            forall|a: int| #![trigger r@[a]] 0 <= a < r@.len() ==> (exists|i: int|
                0 <= i < j && r@[a].key@ == (#[trigger] pairs@[i]).key@ && r@[a].value@
                    == pairs@[i].entry@.value) && json_wf(r@[a].value@),
            forall|i: int| #![trigger pairs@[i]]
                0 <= i < j && json_wf(pairs@[i].entry@.value) ==> exists|a: int|
                    0 <= a < r@.len() && (#[trigger] r@[a]).key@ == pairs@[i].key@,
            forall|a: int, b: int| 0 <= a < b < r@.len() ==> r@[a].key@ != r@[b].key@,
        decreases pairs@.len() - j,
    {
        let ghost r0 = r@;
        let v = pairs[j].entry.value.clone();
        let pushed = json_is_valid(&v);
        if pushed {
            r.push(KeyValue { key: pairs[j].key.clone(), value: v });
        }
        proof {
            if pushed {
                assert(r@ == r0.push(r@.last()));
                assert(r@.last().key@ == pairs@[j as int].key@);
                assert(r@.last().value@ == pairs@[j as int].entry@.value);
            } else {
                assert(r@ == r0);
            }
            assert forall|a: int| #![trigger r@[a]] 0 <= a < r@.len() implies (exists|i: int|
                0 <= i < j + 1 && r@[a].key@ == (#[trigger] pairs@[i]).key@ && r@[a].value@
                    == pairs@[i].entry@.value) && json_wf(r@[a].value@) by {
                if a < r0.len() {
                    assert(r@[a] == r0[a]);
                    let i = choose|i: int|
                        0 <= i < j && r0[a].key@ == (#[trigger] pairs@[i]).key@ && r0[a].value@
                            == pairs@[i].entry@.value;
                    assert(0 <= i < j + 1 && r@[a].key@ == pairs@[i].key@ && r@[a].value@
                        == pairs@[i].entry@.value);
                    assert(json_wf(r0[a].value@));
                } else {
                    let i = j as int;
                    assert(0 <= i < j + 1 && r@[a].key@ == pairs@[i].key@ && r@[a].value@
                        == pairs@[i].entry@.value);
                }
                assert(exists|i: int|
                    0 <= i < j + 1 && r@[a].key@ == (#[trigger] pairs@[i]).key@ && r@[a].value@
                        == pairs@[i].entry@.value);
            }
            assert forall|i: int| #![trigger pairs@[i]]
                0 <= i < j + 1 && json_wf(pairs@[i].entry@.value) implies exists|a: int|
                0 <= a < r@.len() && (#[trigger] r@[a]).key@ == pairs@[i].key@ by {
                if i < j {
                    let a = choose|a: int|
                        0 <= a < r0.len() && (#[trigger] r0[a]).key@ == pairs@[i].key@;
                    assert(r@[a] == r0[a]);
                    assert(r@[a].key@ == pairs@[i].key@);
                } else {
                    assert(pushed);
                    assert(r@[r@.len() - 1].key@ == pairs@[i].key@);
                }
            }
            assert forall|a: int, b: int| 0 <= a < b < r@.len() implies r@[a].key@
                != r@[b].key@ by {
                if b < r0.len() {
                    assert(r@[a] == r0[a] && r@[b] == r0[b]);
                } else if pushed && b == r@.len() - 1 {
                    assert(r@[a] == r0[a]);
                    let i = choose|i: int|
                        0 <= i < j && r0[a].key@ == (#[trigger] pairs@[i]).key@ && r0[a].value@
                            == pairs@[i].entry@.value;
                    assert(pairs@[i].key@ != pairs@[j as int].key@);
                }
            }
        }
        j += 1;
    }
    proof {
        assert forall|a: int| 0 <= a < r@.len() implies store@.contains_key(#[trigger] r@[a].key@)
            && r@[a].value@ == store@[r@[a].key@].value && json_wf(store@[r@[a].key@].value) by {
            assert(0 <= a < r@.len());
            let i = choose|i: int|
                0 <= i < j && r@[a].key@ == (#[trigger] pairs@[i]).key@ && r@[a].value@
                    == pairs@[i].entry@.value;
            assert(store@[pairs@[i].key@] == pairs@[i].entry@);
        }
        assert forall|k: Seq<char>|
            store@.contains_key(k) && json_wf(#[trigger] store@[k].value) implies exists|i: int|
            0 <= i < r@.len() && #[trigger] r@[i].key@ == k by {
            let i = choose|i: int| 0 <= i < pairs@.len() && #[trigger] pairs@[i].key@ == k;
            assert(store@[pairs@[i].key@] == pairs@[i].entry@);
            assert(json_wf(pairs@[i].entry@.value));
            let a = choose|a: int|
                0 <= a < r@.len() && (#[trigger] r@[a]).key@ == pairs@[i].key@;
            assert(r@[a].key@ == k);
        }
    }
    r
}

/// Whether the store holds the key.
pub fn key_exists(store: &KvStore, key: &String) -> (r: bool)
    requires
        store.wf(),
    ensures
        r == store@.contains_key(key@),
{
    store.contains(key)
}

/// Empty the store.
pub fn clear(store: &mut KvStore)
    ensures
        final(store).wf(),
        final(store)@ == Map::<Seq<char>, EntryView>::empty(),
{
    store.clear();
}

/// The number of keys held.
pub fn count(store: &KvStore) -> (r: usize)
    requires
        store.wf(),
    ensures
        r == store@.dom().len(),
{
    store.len()
}

} // verus!
