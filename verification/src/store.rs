use vstd::prelude::*;

verus! {

/// A single stored record: the encoded payload and the Unix timestamp
/// (seconds since the epoch) of the write that produced it.
pub struct Entry {
    pub value: String,
    pub created_at: i64,
}

/// Mathematical image of an `Entry`: the payload as a character sequence
/// and the timestamp as an unbounded integer.
pub ghost struct EntryView {
    pub value: Seq<char>,
    pub created_at: int,
}

impl View for Entry {
    type V = EntryView;

    open spec fn view(&self) -> EntryView {
        EntryView { value: self.value@, created_at: self.created_at as int }
    }
}

impl Clone for Entry {
    fn clone(&self) -> (r: Self)
        ensures
            r@ == self@,
    {
        Entry { value: self.value.clone(), created_at: self.created_at }
    }
}

/// One key together with its entry, as handed out by [`KvStore::pairs`].
pub struct KvPair {
    pub key: String,
    pub entry: Entry,
}

/// Mathematical image of a [`KvPair`].
pub ghost struct PairView {
    pub key: Seq<char>,
    pub entry: EntryView,
}

impl View for KvPair {
    type V = PairView;

    open spec fn view(&self) -> PairView {
        PairView { key: self.key@, entry: self.entry@ }
    }
}

struct Slot {
    key: String,
    entry: Entry,
}

/// The key/value store: a finite mapping from keys to entries.
/// Its mathematical content is the `Map<Seq<char>, EntryView>` given by `view`.
pub struct KvStore {
    slots: Vec<Slot>,
}

spec fn slots_map(s: Seq<Slot>) -> Map<Seq<char>, EntryView>
    decreases s.len(),
{
    if s.len() == 0 {
        Map::empty()
    } else {
        slots_map(s.drop_last()).insert(s.last().key@, s.last().entry@)
    }
}

spec fn unique_keys(s: Seq<Slot>) -> bool {
    forall|i: int, j: int| 0 <= i < j < s.len() ==> s[i].key@ != s[j].key@
}

/// An entry is fresh at time `now` under a retention window when its age
/// does not exceed the window (the boundary itself is kept).
pub open spec fn fresh_at(e: EntryView, now: int, retention: int) -> bool {
    now - e.created_at <= retention
}

proof fn lemma_slots_map_contains(s: Seq<Slot>, k: Seq<char>)
    ensures
        slots_map(s).contains_key(k) <==> exists|i: int| 0 <= i < s.len() && s[i].key@ == k,
    decreases s.len(),
{
    if s.len() > 0 {
        lemma_slots_map_contains(s.drop_last(), k);
        if s.last().key@ == k {
            assert(s[s.len() - 1].key@ == k);
        } else {
            if slots_map(s).contains_key(k) {
                let i = choose|i: int| 0 <= i < s.drop_last().len() && s.drop_last()[i].key@ == k;
                assert(s[i].key@ == k);
            }
            if exists|i: int| 0 <= i < s.len() && s[i].key@ == k {
                let i = choose|i: int| 0 <= i < s.len() && s[i].key@ == k;
                assert(i < s.len() - 1);
                assert(s.drop_last()[i].key@ == k);
            }
        }
    }
}

proof fn lemma_slots_map_value(s: Seq<Slot>, i: int)
    requires
        unique_keys(s),
        0 <= i < s.len(),
    ensures
        slots_map(s).contains_key(s[i].key@),
        slots_map(s)[s[i].key@] == s[i].entry@,
    decreases s.len(),
{
    if i == s.len() - 1 {
    } else {
        assert(unique_keys(s.drop_last()));
        assert(s.drop_last()[i] == s[i]);
        lemma_slots_map_value(s.drop_last(), i);
        assert(s[i].key@ != s.last().key@);
    }
}

proof fn lemma_slots_map_len(s: Seq<Slot>)
    requires
        unique_keys(s),
    ensures
        slots_map(s).dom().finite(),
        slots_map(s).dom().len() == s.len(),
    decreases s.len(),
{
    if s.len() > 0 {
        assert(unique_keys(s.drop_last()));
        lemma_slots_map_len(s.drop_last());
        lemma_slots_map_contains(s.drop_last(), s.last().key@);
        assert(forall|i: int| 0 <= i < s.drop_last().len() ==> s.drop_last()[i] == s[i]);
        assert(!slots_map(s.drop_last()).contains_key(s.last().key@));
        assert(slots_map(s).dom() =~= slots_map(s.drop_last()).dom().insert(s.last().key@));
    }
}

proof fn lemma_slots_map_push(s: Seq<Slot>, x: Slot)
    ensures
        slots_map(s.push(x)) == slots_map(s).insert(x.key@, x.entry@),
{
    assert(s.push(x).drop_last() =~= s);
    assert(s.push(x).last() == x);
}

proof fn lemma_slots_map_remove(s: Seq<Slot>, i: int)
    requires
        unique_keys(s),
        0 <= i < s.len(),
    ensures
        unique_keys(s.remove(i)),
        slots_map(s.remove(i)) == slots_map(s).remove(s[i].key@),
    decreases s.len(),
{
    let r = s.remove(i);
    assert(forall|j: int| 0 <= j < i ==> r[j] == s[j]);
    assert(forall|j: int| i <= j < r.len() ==> r[j] == s[j + 1]);
    assert(unique_keys(r));
    assert forall|k: Seq<char>|
        slots_map(r).contains_key(k) <==> slots_map(s).remove(s[i].key@).contains_key(k) by {
        lemma_slots_map_contains(r, k);
        lemma_slots_map_contains(s, k);
        if slots_map(r).contains_key(k) {
            let j = choose|j: int| 0 <= j < r.len() && r[j].key@ == k;
            if j < i {
                assert(s[j].key@ == k);
                assert(k != s[i].key@);
            } else {
                assert(s[j + 1].key@ == k);
                assert(k != s[i].key@);
            }
        }
        if slots_map(s).remove(s[i].key@).contains_key(k) {
            let j = choose|j: int| 0 <= j < s.len() && s[j].key@ == k;
            assert(j != i);
            if j < i {
                assert(r[j].key@ == k);
            } else {
                assert(r[j - 1].key@ == k);
            }
        }
    }
    assert forall|k: Seq<char>| #[trigger] slots_map(r).contains_key(k) implies slots_map(r)[k]
        == slots_map(s).remove(s[i].key@)[k] by {
        lemma_slots_map_contains(r, k);
        let j = choose|j: int| 0 <= j < r.len() && r[j].key@ == k;
        lemma_slots_map_value(r, j);
        if j < i {
            lemma_slots_map_value(s, j);
        } else {
            lemma_slots_map_value(s, j + 1);
        }
    }
    assert(slots_map(r) =~= slots_map(s).remove(s[i].key@));
}

impl KvStore {
    /// The content of the store: its keys, each with the entry it holds.
    pub closed spec fn view(&self) -> Map<Seq<char>, EntryView> {
        slots_map(self.slots@)
    }

    /// Internal validity: no key occurs twice.
    pub closed spec fn wf(&self) -> bool {
        unique_keys(self.slots@)
    }

    /// Create an empty store.
    pub fn new() -> (r: KvStore)
        ensures
            r.wf(),
            r@ == Map::<Seq<char>, EntryView>::empty(),
    {
        KvStore { slots: Vec::new() }
    }

    fn find_index(&self, key: &String) -> (r: Option<usize>)
        ensures
            match r {
                Some(i) => i < self.slots@.len() && self.slots@[i as int].key@ == key@,
                None => forall|i: int| 0 <= i < self.slots@.len() ==> self.slots@[i].key@ != key@,
            },
    {
        let mut j: usize = 0;
        while j < self.slots.len()
            invariant
                j <= self.slots@.len(),
                forall|i: int| 0 <= i < j ==> self.slots@[i].key@ != key@,
            decreases self.slots@.len() - j,
        {
            if self.slots[j].key.eq(key) {
                return Some(j);
            }
            j += 1;
        }
        None
    }

    /// Whether the store holds the key.
    pub fn contains(&self, key: &String) -> (r: bool)
        requires
            self.wf(),
        ensures
            r == self@.contains_key(key@),
    {
        proof {
            lemma_slots_map_contains(self.slots@, key@);
        }
        match self.find_index(key) {
            Some(_) => true,
            None => false,
        }
    }

    /// Read the entry stored under the key, if any.
    pub fn get(&self, key: &String) -> (r: Option<&Entry>)
        requires
            self.wf(),
        ensures
            match r {
                Some(e) => self@.contains_key(key@) && e@ == self@[key@],
                None => !self@.contains_key(key@),
            },
    {
        proof {
            lemma_slots_map_contains(self.slots@, key@);
        }
        match self.find_index(key) {
            Some(i) => {
                proof {
                    lemma_slots_map_value(self.slots@, i as int);
                }
                Some(&self.slots[i].entry)
            },
            None => None,
        }
    }

    /// Write an entry under the key, replacing any previous one.
    pub fn insert(&mut self, key: String, entry: Entry)
        requires
            old(self).wf(),
        ensures
            final(self).wf(),
            final(self)@ == old(self)@.insert(key@, entry@),
    {
        let ghost s0 = self.slots@;
        match self.find_index(&key) {
            Some(i) => {
                self.slots.remove(i);
                proof {
                    lemma_slots_map_remove(s0, i as int);
                    assert(forall|j: int|
                        0 <= j < s0.remove(i as int).len() ==> s0.remove(i as int)[j].key@
                            != key@);
                }
                let ghost s1 = self.slots@;
                self.slots.push(Slot { key, entry });
                proof {
                    lemma_slots_map_push(s1, self.slots@.last());
                    assert(slots_map(self.slots@) =~= slots_map(s0).insert(
                        self.slots@.last().key@,
                        self.slots@.last().entry@,
                    ));
                    assert(unique_keys(self.slots@));
                }
            },
            None => {
                self.slots.push(Slot { key, entry });
                proof {
                    lemma_slots_map_push(s0, self.slots@.last());
                    assert(forall|j: int| 0 <= j < s0.len() ==> self.slots@[j] == s0[j]);
                    assert(unique_keys(self.slots@));
                }
            },
        }
    }

    /// Remove the key if present; removing an absent key changes nothing.
    pub fn remove(&mut self, key: &String)
        requires
            old(self).wf(),
        ensures
            final(self).wf(),
            final(self)@ == old(self)@.remove(key@),
    {
        let ghost s0 = self.slots@;
        match self.find_index(key) {
            Some(i) => {
                self.slots.remove(i);
                proof {
                    lemma_slots_map_remove(s0, i as int);
                }
            },
            None => {
                proof {
                    lemma_slots_map_contains(s0, key@);
                    assert(slots_map(s0).remove(key@) =~= slots_map(s0));
                }
            },
        }
    }

    /// Empty the store.
    pub fn clear(&mut self)
        ensures
            final(self).wf(),
            final(self)@ == Map::<Seq<char>, EntryView>::empty(),
    {
        self.slots.clear();
    }

    /// The number of keys held.
    pub fn len(&self) -> (r: usize)
        requires
            self.wf(),
        ensures
            r == self@.dom().len(),
    {
        proof {
            lemma_slots_map_len(self.slots@);
        }
        self.slots.len()
    }

    /// All keys, each exactly once, in unspecified order.
    pub fn keys(&self) -> (r: Vec<String>)
        requires
            self.wf(),
        ensures
            r@.len() == self@.dom().len(),
            forall|i: int| 0 <= i < r@.len() ==> self@.contains_key(#[trigger] r@[i]@),
            forall|k: Seq<char>| self@.contains_key(k) ==> exists|i: int|
                0 <= i < r@.len() && #[trigger] r@[i]@ == k,
            forall|i: int, j: int| 0 <= i < j < r@.len() ==> r@[i]@ != r@[j]@,
    {
        proof {
            lemma_slots_map_len(self.slots@);
        }
        let mut r: Vec<String> = Vec::new();
        let mut j: usize = 0;
        while j < self.slots.len()
            invariant
                j <= self.slots@.len(),
                r@.len() == j,
                forall|i: int| 0 <= i < j ==> r@[i]@ == self.slots@[i].key@,
            decreases self.slots@.len() - j,
        {
            r.push(self.slots[j].key.clone());
            j += 1;
        }
        proof {
            assert forall|i: int| 0 <= i < r@.len() implies self@.contains_key(
                #[trigger] r@[i]@,
            ) by {
                lemma_slots_map_value(self.slots@, i);
            }
            assert forall|k: Seq<char>| self@.contains_key(k) implies exists|i: int|
                0 <= i < r@.len() && #[trigger] r@[i]@ == k by {
                lemma_slots_map_contains(self.slots@, k);
                let i = choose|i: int| 0 <= i < self.slots@.len() && self.slots@[i].key@ == k;
                assert(r@[i]@ == k);
            }
        }
        r
    }

    /// All pairs, each key exactly once, in unspecified order.
    pub fn pairs(&self) -> (r: Vec<KvPair>)
        requires
            self.wf(),
        ensures
            self@.dom().finite(),
            r@.len() == self@.dom().len(),
            forall|i: int| 0 <= i < r@.len() ==> self@.contains_key(#[trigger] r@[i].key@)
                && self@[r@[i].key@] == r@[i].entry@,
            forall|k: Seq<char>| self@.contains_key(k) ==> exists|i: int|
                0 <= i < r@.len() && #[trigger] r@[i].key@ == k,
            forall|i: int, j: int| 0 <= i < j < r@.len() ==> r@[i].key@ != r@[j].key@,
    {
        proof {
            lemma_slots_map_len(self.slots@);
        }
        let mut r: Vec<KvPair> = Vec::new();
        let mut j: usize = 0;
        while j < self.slots.len()
            invariant
                j <= self.slots@.len(),
                r@.len() == j,
                forall|i: int| 0 <= i < j ==> r@[i].key@ == self.slots@[i].key@
                    && r@[i].entry@ == self.slots@[i].entry@,
            decreases self.slots@.len() - j,
        {
            r.push(KvPair { key: self.slots[j].key.clone(), entry: self.slots[j].entry.clone() });
            j += 1;
        }
        proof {
            assert forall|i: int| 0 <= i < r@.len() implies self@.contains_key(
                #[trigger] r@[i].key@,
            ) && self@[r@[i].key@] == r@[i].entry@ by {
                lemma_slots_map_value(self.slots@, i);
            }
            assert forall|k: Seq<char>| self@.contains_key(k) implies exists|i: int|
                0 <= i < r@.len() && #[trigger] r@[i].key@ == k by {
                lemma_slots_map_contains(self.slots@, k);
                let i = choose|i: int| 0 <= i < self.slots@.len() && self.slots@[i].key@ == k;
                assert(r@[i].key@ == k);
            }
        }
        r
    }
}

spec fn keep_fresh(s: Seq<Slot>, now: int, retention: int) -> Seq<Slot>
    decreases s.len(),
{
    if s.len() == 0 {
        Seq::empty()
    } else {
        let prefix = keep_fresh(s.drop_last(), now, retention);
        if fresh_at(s.last().entry@, now, retention) {
            prefix.push(s.last())
        } else {
            prefix
        }
    }
}

proof fn lemma_keep_fresh(s: Seq<Slot>, now: int, retention: int)
    requires
        unique_keys(s),
    ensures
        unique_keys(keep_fresh(s, now, retention)),
        keep_fresh(s, now, retention).len() <= s.len(),
        forall|i: int| 0 <= i < keep_fresh(s, now, retention).len() ==> s.contains(
            #[trigger] keep_fresh(s, now, retention)[i],
        ) && fresh_at(keep_fresh(s, now, retention)[i].entry@, now, retention),
        forall|j: int|
            0 <= j < s.len() && fresh_at(#[trigger] s[j].entry@, now, retention) ==> keep_fresh(
                s,
                now,
                retention,
            ).contains(s[j]),
    decreases s.len(),
{
    if s.len() > 0 {
        let dl = s.drop_last();
        assert(unique_keys(dl));
        lemma_keep_fresh(dl, now, retention);
        let fp = keep_fresh(dl, now, retention);
        let f = keep_fresh(s, now, retention);
        assert(forall|j: int| 0 <= j < dl.len() ==> dl[j] == s[j]);
        assert forall|x: Slot| dl.contains(x) implies s.contains(x) by {
            let j = choose|j: int| 0 <= j < dl.len() && dl[j] == x;
            assert(s[j] == x);
        }
        if fresh_at(s.last().entry@, now, retention) {
            assert(f == fp.push(s.last()));
            assert forall|i: int| 0 <= i < f.len() implies s.contains(#[trigger] f[i]) && fresh_at(
                f[i].entry@,
                now,
                retention,
            ) by {
                if i < f.len() - 1 {
                    assert(f[i] == fp[i]);
                } else {
                    assert(f[i] == s[s.len() - 1]);
                }
            }
            assert forall|a: int, b: int| 0 <= a < b < f.len() implies f[a].key@ != f[b].key@ by {
                if b < f.len() - 1 {
                    assert(f[a] == fp[a] && f[b] == fp[b]);
                } else {
                    assert(f[a] == fp[a]);
                    assert(dl.contains(fp[a]));
                    let j = choose|j: int| 0 <= j < dl.len() && dl[j] == fp[a];
                    assert(s[j].key@ != s[s.len() - 1].key@);
                }
            }
            assert forall|j: int|
                0 <= j < s.len() && fresh_at(#[trigger] s[j].entry@, now, retention) implies f
                .contains(s[j]) by {
                if j == s.len() - 1 {
                    assert(f[f.len() - 1] == s[j]);
                } else {
                    assert(fp.contains(dl[j]));
                    let i = choose|i: int| 0 <= i < fp.len() && fp[i] == dl[j];
                    assert(f[i] == s[j]);
                }
            }
        } else {
            assert(f == fp);
            assert forall|i: int| 0 <= i < f.len() implies s.contains(#[trigger] f[i]) && fresh_at(
                f[i].entry@,
                now,
                retention,
            ) by {
                assert(dl.contains(fp[i]));
            }
            assert forall|j: int|
                0 <= j < s.len() && fresh_at(#[trigger] s[j].entry@, now, retention) implies f
                .contains(s[j]) by {
                assert(j != s.len() - 1);
                assert(fp.contains(dl[j]));
                let i = choose|i: int| 0 <= i < fp.len() && fp[i] == dl[j];
                assert(f[i] == s[j]);
            }
        }
    }
}

proof fn lemma_keep_fresh_map(s: Seq<Slot>, now: int, retention: int)
    requires
        unique_keys(s),
    ensures
        unique_keys(keep_fresh(s, now, retention)),
        keep_fresh(s, now, retention).len() <= s.len(),
        forall|k: Seq<char>| slots_map(keep_fresh(s, now, retention)).contains_key(k) <==> (
        slots_map(s).contains_key(k) && fresh_at(slots_map(s)[k], now, retention)),
        forall|k: Seq<char>| #[trigger] slots_map(keep_fresh(s, now, retention)).contains_key(k)
            ==> slots_map(keep_fresh(s, now, retention))[k] == slots_map(s)[k],
{
    let f = keep_fresh(s, now, retention);
    lemma_keep_fresh(s, now, retention);
    assert forall|k: Seq<char>|
        slots_map(f).contains_key(k) <==> (slots_map(s).contains_key(k) && fresh_at(
            slots_map(s)[k],
            now,
            retention,
        )) by {
        lemma_slots_map_contains(f, k);
        lemma_slots_map_contains(s, k);
        if slots_map(f).contains_key(k) {
            let i = choose|i: int| 0 <= i < f.len() && f[i].key@ == k;
            assert(s.contains(f[i]));
            let j2 = choose|j2: int| 0 <= j2 < s.len() && s[j2] == f[i];
            lemma_slots_map_value(s, j2);
        }
        if slots_map(s).contains_key(k) && fresh_at(slots_map(s)[k], now, retention) {
            let j2 = choose|j2: int| 0 <= j2 < s.len() && s[j2].key@ == k;
            lemma_slots_map_value(s, j2);
            assert(f.contains(s[j2]));
            let i = choose|i: int| 0 <= i < f.len() && f[i] == s[j2];
            assert(f[i].key@ == k);
        }
    }
    assert forall|k: Seq<char>| #[trigger] slots_map(f).contains_key(k) implies slots_map(f)[k]
        == slots_map(s)[k] by {
        lemma_slots_map_contains(f, k);
        let i = choose|i: int| 0 <= i < f.len() && f[i].key@ == k;
        lemma_slots_map_value(f, i);
        assert(s.contains(f[i]));
        let j2 = choose|j2: int| 0 <= j2 < s.len() && s[j2] == f[i];
        lemma_slots_map_value(s, j2);
    }
}

impl Clone for Slot {
    fn clone(&self) -> (r: Self)
        ensures
            r == *self,
    {
        Slot { key: self.key.clone(), entry: Entry { value: self.entry.value.clone(), created_at: self.entry.created_at } }
    }
}

impl KvStore {
    /// Remove every entry whose age at `now` exceeds the retention window;
    /// report how many were removed.
    pub fn retain_fresh(&mut self, now: i64, retention: u64) -> (removed: usize)
        requires
            old(self).wf(),
        ensures
            final(self).wf(),
            forall|k: Seq<char>| final(self)@.contains_key(k) <==> (old(self)@.contains_key(k)
                && fresh_at(old(self)@[k], now as int, retention as int)),
            forall|k: Seq<char>| #[trigger] final(self)@.contains_key(k) ==> final(self)@[k]
                == old(self)@[k],
            final(self)@.dom().len() + removed == old(self)@.dom().len(),
    {
        let ghost s0 = self.slots@;
        let ghost nowi = now as int;
        let ghost reti = retention as int;
        let before = self.slots.len();
        let mut out: Vec<Slot> = Vec::new();
        let mut j: usize = 0;
        while j < self.slots.len()
            invariant
                j <= self.slots@.len(),
                self.slots@ == s0,
                nowi == now as int,
                reti == retention as int,
                out@ == keep_fresh(s0.subrange(0, j as int), nowi, reti),
            decreases self.slots@.len() - j,
        {
            let created = self.slots[j].entry.created_at;
            let keep = (now as i128) - (created as i128) <= (retention as i128);
            let ghost pre = s0.subrange(0, j as int);
            let ghost post = s0.subrange(0, j as int + 1);
            proof {
                assert(post.drop_last() =~= pre);
                assert(post.last() == s0[j as int]);
                assert(created == s0[j as int].entry.created_at);
                assert(keep == fresh_at(s0[j as int].entry@, now as int, retention as int));
                assert(keep_fresh(post, nowi, reti) == if fresh_at(post.last().entry@, nowi, reti) {
                    keep_fresh(pre, nowi, reti).push(post.last())
                } else {
                    keep_fresh(pre, nowi, reti)
                });
            }
            if keep {
                let c = self.slots[j].clone();
                out.push(c);
                proof {
                    assert(out@ == keep_fresh(post, nowi, reti));
                }
            }
            j += 1;
        }
        proof {
            assert(s0.subrange(0, s0.len() as int) =~= s0);
            lemma_keep_fresh_map(s0, nowi, reti);
            lemma_slots_map_len(s0);
            lemma_slots_map_len(keep_fresh(s0, nowi, reti));
        }
        self.slots = out;
        before - self.slots.len()
    }
}

} // verus!
