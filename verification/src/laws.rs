use vstd::prelude::*;

use crate::persistence::purge_post;
use crate::pubsub::SubscriptionView;
use crate::store::EntryView;

verus! {

/// Round trip: after a set of `k` to `v`, a get of `k` reads `v` back.
/// `set_at` leaves the store at the inserted map; `get` reads the entry's
/// payload, and hands it out whenever it decodes as JSON.
pub proof fn lemma_set_get_round_trip(
    m: Map<Seq<char>, EntryView>,
    k: Seq<char>,
    v: Seq<char>,
    t: int,
)
    ensures
        m.insert(k, EntryView { value: v, created_at: t }).contains_key(k),
        m.insert(k, EntryView { value: v, created_at: t })[k].value == v,
{
}

/// Delete: after a delete of `k`, a get of `k` finds nothing, whether or
/// not `k` was present before.
pub proof fn lemma_delete_then_get(m: Map<Seq<char>, EntryView>, k: Seq<char>)
    ensures
        !m.remove(k).contains_key(k),
{
}

/// Update visibility: a second set of the same key makes a get read the
/// second value, and the second set finds the first value as the prior
/// payload, which its notification carries as old value.
pub proof fn lemma_update_visibility(
    m: Map<Seq<char>, EntryView>,
    k: Seq<char>,
    v1: Seq<char>,
    t1: int,
    v2: Seq<char>,
    t2: int,
)
    ensures
        m.insert(k, EntryView { value: v1, created_at: t1 }).insert(
            k,
            EntryView { value: v2, created_at: t2 },
        )[k].value == v2,
        m.insert(k, EntryView { value: v1, created_at: t1 }).contains_key(k),
        m.insert(k, EntryView { value: v1, created_at: t1 })[k].value == v1,
{
}

/// No lost writes: sets on distinct keys land independently; each key holds
/// the entry written under it, and writing one key never disturbs another.
pub proof fn lemma_independent_keys(
    m: Map<Seq<char>, EntryView>,
    k1: Seq<char>,
    e1: EntryView,
    k2: Seq<char>,
    e2: EntryView,
)
    requires
        k1 != k2,
    ensures
        m.insert(k1, e1).insert(k2, e2).contains_key(k1),
        m.insert(k1, e1).insert(k2, e2).contains_key(k2),
        m.insert(k1, e1).insert(k2, e2)[k1] == e1,
        m.insert(k1, e1).insert(k2, e2)[k2] == e2,
        forall|k: Seq<char>| k != k1 && k != k2 ==> (m.insert(k1, e1).insert(
            k2,
            e2,
        ).contains_key(k) <==> m.contains_key(k)),
{
}

/// Cleanup at zero retention: a sweep with a zero window removes every
/// entry present in the store at that tick, leaving it empty -- including
/// entries written at the very instant of the sweep.
pub proof fn lemma_cleanup_zero_retention(
    m0: Map<Seq<char>, EntryView>,
    m1: Map<Seq<char>, EntryView>,
    now: int,
)
    requires
        purge_post(m0, m1, now, 0),
    ensures
        forall|k: Seq<char>| !m1.contains_key(k),
        m1 == Map::<Seq<char>, EntryView>::empty(),
{
    assert(m1 =~= Map::<Seq<char>, EntryView>::empty());
}

/// The ids whose subscription watches `key`: the deliveries one update to
/// `key` fans out to.
pub open spec fn matching_ids(m: Map<u64, SubscriptionView>, key: Seq<char>) -> Set<u64> {
    Set::new(|i: u64| m.contains_key(i) && m[i].key == key)
}

/// Notification targeting: registering a subscriber for `x` adds exactly
/// that one delivery to updates of `x`, and adds nothing to updates of any
/// other key.
pub proof fn lemma_notification_targeting(
    m: Map<u64, SubscriptionView>,
    id: u64,
    x: Seq<char>,
    y: Seq<char>,
    cb: Seq<char>,
)
    requires
        !m.contains_key(id),
        x != y,
    ensures
        matching_ids(m.insert(id, SubscriptionView { id, key: x, callback: cb }), x)
            == matching_ids(m, x).insert(id),
        matching_ids(m.insert(id, SubscriptionView { id, key: x, callback: cb }), y)
            == matching_ids(m, y),
        !matching_ids(m, x).contains(id),
{
    let m2 = m.insert(id, SubscriptionView { id, key: x, callback: cb });
    assert(matching_ids(m2, x) =~= matching_ids(m, x).insert(id));
    assert(matching_ids(m2, y) =~= matching_ids(m, y));
}

/// Unsubscribe idempotence: the first unsubscribe of an id reports whether
/// it was present and leaves the registry without it; a second call with
/// the same id finds nothing, so it reports false.
pub proof fn lemma_unsubscribe_idempotent(m: Map<u64, SubscriptionView>, id: u64)
    ensures
        !m.remove(id).contains_key(id),
        m.remove(id).remove(id) == m.remove(id),
{
    assert(m.remove(id).remove(id) =~= m.remove(id));
}

} // verus!
