//! The store: a map from keys to JSON documents, held as a vector of entries
//! with distinct keys, kept in ascending byte order of the keys.
use crate::external::{is_alphanumeric, random_key};
use crate::keys::{key_lt, lemma_key_lt_irreflexive, lemma_key_lt_total, lemma_key_lt_transitive, sorts_after};
use vstd::prelude::*;

verus! {

/// The outcome of an operation that the map's contents refuse.
#[derive(PartialEq, Eq, Structural, Debug, Clone, Copy)]
pub enum StoreError {
    /// The key is already present.
    Conflict,
    /// The key is absent, or a listing window is empty.
    NotFound,
}

/// Length of a generated key.
pub const KEY_LEN: usize = 8;

/// How many random keys `create_key` draws before it gives up.
pub const KEY_DRAWS: u64 = 1000000;

/// Listing window used when the caller names none.
pub const DEFAULT_LIMIT: u64 = 1000;

pub struct KVStore {
    entries: Vec<(String, serde_json::Value)>,
}

/// The index of an entry with key `k`, if there is one.
pub open spec fn holds_key(s: Seq<(Seq<char>, serde_json::Value)>, k: Seq<char>) -> bool {
    exists|i: int| 0 <= i < s.len() && (#[trigger] s[i]).0 == k
}

/// Keys are pairwise distinct.
pub open spec fn keys_distinct(s: Seq<(Seq<char>, serde_json::Value)>) -> bool {
    forall|i: int, j: int| 0 <= i < s.len() && 0 <= j < s.len() && i != j ==> (#[trigger] s[i]).0
        != (#[trigger] s[j]).0
}

/// Keys strictly ascend in byte order.
pub open spec fn keys_ascending(s: Seq<(Seq<char>, serde_json::Value)>) -> bool {
    forall|i: int, j: int| 0 <= i < j < s.len() ==> key_lt((#[trigger] s[i]).0, (#[trigger] s[j]).0)
}

/// The map that a listing of entries stands for.
pub open spec fn map_of(s: Seq<(Seq<char>, serde_json::Value)>) -> Map<Seq<char>, serde_json::Value> {
    Map::new(
        |k: Seq<char>| holds_key(s, k),
        |k: Seq<char>| s[choose|i: int| 0 <= i < s.len() && (#[trigger] s[i]).0 == k].1,
    )
}

/// The shape of a generated key: `KEY_LEN` ASCII letters or digits.
pub open spec fn is_generated_key(k: Seq<char>) -> bool {
    k.len() == KEY_LEN && forall|i: int| 0 <= i < KEY_LEN ==> is_alphanumeric(#[trigger] k[i])
}

/// No key of the map has the shape of a generated key, so the first draw is fresh.
pub open spec fn no_generated_key(m: Map<Seq<char>, serde_json::Value>) -> bool {
    forall|k: Seq<char>| #[trigger] m.contains_key(k) ==> !is_generated_key(k)
}

/// The window of a listing that `list_keys` returns, or `NotFound` where it is empty.
pub open spec fn window(s: Seq<(Seq<char>, serde_json::Value)>, skip: int, limit: int) -> Result<
    Seq<(Seq<char>, serde_json::Value)>,
    StoreError,
> {
    if skip >= s.len() || limit == 0 {
        Err(StoreError::NotFound)
    } else if skip + limit >= s.len() {
        Ok(s.subrange(skip, s.len() as int))
    } else {
        Ok(s.subrange(skip, skip + limit))
    }
}

pub proof fn lemma_map_of_index(s: Seq<(Seq<char>, serde_json::Value)>, i: int)
    requires
        keys_distinct(s),
        0 <= i < s.len(),
    ensures
        map_of(s).contains_key(s[i].0),
        map_of(s)[s[i].0] == s[i].1,
{
    let k = s[i].0;
    assert(holds_key(s, k));
    let j = choose|j: int| 0 <= j < s.len() && (#[trigger] s[j]).0 == k;
    assert(j == i);
}

impl View for KVStore {
    type V = Map<Seq<char>, serde_json::Value>;

    open spec fn view(&self) -> Map<Seq<char>, serde_json::Value> {
        map_of(self.listing())
    }
}

impl KVStore {
    /// The entries, in the order in which `list_keys` hands them out.
    pub closed spec fn listing(&self) -> Seq<(Seq<char>, serde_json::Value)> {
        self.entries@.map_values(|e: (String, serde_json::Value)| (e.0@, e.1))
    }

    /// No two entries share a key, and the listing ascends by key.
    pub open spec fn wf(&self) -> bool {
        keys_distinct(self.listing()) && keys_ascending(self.listing())
    }

    /// An empty store.
    pub fn new() -> (r: Self)
        ensures
            r.wf(),
            r@ == Map::<Seq<char>, serde_json::Value>::empty(),
            r.listing().len() == 0,
    {
        let r = KVStore { entries: Vec::new() };
        assert(r@ =~= Map::<Seq<char>, serde_json::Value>::empty());
        r
    }

    /// A copy of the store, entry for entry.
    pub fn copy(&self) -> (r: Self)
        ensures
            r.wf() == self.wf(),
            r.listing() == self.listing(),
            r@ == self@,
    {
        let mut entries: Vec<(String, serde_json::Value)> = Vec::new();
        let mut i: usize = 0;
        while i < self.entries.len()
            invariant
                i <= self.entries@.len(),
                entries@.map_values(|e: (String, serde_json::Value)| (e.0@, e.1)) =~= self.listing().subrange(
                    0,
                    i as int,
                ),
            decreases self.entries@.len() - i,
        {
            let key = self.entries[i].0.clone();
            let value = self.entries[i].1.clone();
            assert(self.listing()[i as int] == (key@, value));
            let ghost prev = entries@;
            let ghost item = (key@, value);
            entries.push((key, value));
            assert(entries@.map_values(|e: (String, serde_json::Value)| (e.0@, e.1)) =~= prev.map_values(
                |e: (String, serde_json::Value)| (e.0@, e.1),
            ).push(item));
            i = i + 1;
        }
        let r = KVStore { entries };
        assert(r.listing() =~= self.listing());
        r
    }

    /// Number of entries.
    pub fn len(&self) -> (r: usize)
        ensures
            r == self.listing().len(),
    {
        self.entries.len()
    }

    /// The index of the entry with this key, if any.
    fn position(&self, key: &String) -> (r: Option<usize>)
        requires
            self.wf(),
        ensures
            r is Some ==> r->0 < self.listing().len() && self.listing()[r->0 as int].0 == key@,
            r is None ==> !holds_key(self.listing(), key@),
    {
        let mut i: usize = 0;
        while i < self.entries.len()
            invariant
                i <= self.entries.len(),
                forall|j: int| 0 <= j < i ==> (#[trigger] self.listing()[j]).0 != key@,
            decreases self.entries.len() - i,
        {
            assert(self.listing()[i as int].0 == self.entries@[i as int].0@);
            if self.entries[i].0.eq(key) {
                assert(self.listing()[i as int].0 == key@);
                return Some(i);
            }
            i = i + 1;
        }
        None
    }

    /// The entry at index `i` of the listing.
    pub fn entry(&self, i: usize) -> (r: (&String, &serde_json::Value))
        requires
            i < self.listing().len(),
        ensures
            (r.0@, *r.1) == self.listing()[i as int],
    {
        (&self.entries[i].0, &self.entries[i].1)
    }

    /// Whether the key is present.
    pub fn contains(&self, key: &String) -> (r: bool)
        requires
            self.wf(),
        ensures
            r == self@.contains_key(key@),
    {
        self.position(key).is_some()
    }

    /// Puts the key in place, overwriting any value it had: an upsert.
    pub fn insert(&mut self, key: String, value: serde_json::Value)
        requires
            old(self).wf(),
        ensures
            final(self).wf(),
            final(self)@ == old(self)@.insert(key@, value),
    {
        let ghost k = key@;
        let ghost s0 = self.listing();
        match self.position(&key) {
            Some(i) => {
                self.entries.set(i, (key, value));
                let ghost s1 = self.listing();
                assert(s1 =~= s0.update(i as int, (k, value)));
                assert(keys_distinct(s1));
                assert(keys_ascending(s1)) by {
                    assert forall|a: int, b: int| 0 <= a < b < s1.len() implies key_lt(
                        (#[trigger] s1[a]).0,
                        (#[trigger] s1[b]).0,
                    ) by {
                        assert(s1[a].0 == s0[a].0 && s1[b].0 == s0[b].0);
                    }
                }
                assert forall|q: Seq<char>| #[trigger] self@.contains_key(q) == old(self)@.insert(
                    k,
                    value,
                ).contains_key(q) by {
                    if holds_key(s1, q) {
                        let j = choose|j: int| 0 <= j < s1.len() && (#[trigger] s1[j]).0 == q;
                        if j != i {
                            assert(s0[j].0 == q);
                            assert(holds_key(s0, q));
                        }
                    }
                    if holds_key(s0, q) && q != k {
                        let j = choose|j: int| 0 <= j < s0.len() && (#[trigger] s0[j]).0 == q;
                        assert(j != i);
                        assert(s1[j].0 == q);
                        assert(holds_key(s1, q));
                    }
                    if q == k {
                        assert(s1[i as int].0 == q);
                        assert(holds_key(s1, q));
                    }
                }
                assert forall|q: Seq<char>| #[trigger] self@.contains_key(q) implies self@[q]
                    == old(self)@.insert(k, value)[q] by {
                    let j = choose|j: int| 0 <= j < s1.len() && (#[trigger] s1[j]).0 == q;
                    lemma_map_of_index(s1, j);
                    if j != i {
                        lemma_map_of_index(s0, j);
                    }
                }
                assert(self@ =~= old(self)@.insert(k, value));
            },
            None => {
                let mut p: usize = 0;
                while p < self.entries.len() && !sorts_after(&self.entries[p].0, &key)
                    invariant
                        p <= self.entries.len(),
                        self.listing() == s0,
                        key@ == k,
                        forall|j: int| 0 <= j < p ==> !key_lt(k, (#[trigger] s0[j]).0),
                    decreases self.entries.len() - p,
                {
                    assert(s0[p as int].0 == self.entries@[p as int].0@);
                    p = p + 1;
                }
                assert(p < s0.len() ==> key_lt(k, s0[p as int].0)) by {
                    if p < s0.len() {
                        assert(s0[p as int].0 == self.entries@[p as int].0@);
                    }
                }
                self.entries.insert(p, (key, value));
                let ghost s1 = self.listing();
                assert(s1 =~= s0.insert(p as int, (k, value)));
                assert(s1[p as int].0 == k);
                assert(keys_ascending(s1)) by {
                    assert forall|a: int, b: int| 0 <= a < b < s1.len() implies key_lt(
                        (#[trigger] s1[a]).0,
                        (#[trigger] s1[b]).0,
                    ) by {
                        if b < p {
                            assert(s1[a] == s0[a] && s1[b] == s0[b]);
                        } else if a > p {
                            assert(s1[a] == s0[a - 1] && s1[b] == s0[b - 1]);
                        } else if a < p && b > p {
                            assert(s1[a] == s0[a] && s1[b] == s0[b - 1]);
                            assert(s0[a].0 != k);
                            lemma_key_lt_total(s0[a].0, k);
                            lemma_key_lt_transitive(s0[a].0, k, s0[p as int].0);
                            if b - 1 > p {
                                lemma_key_lt_transitive(s0[a].0, s0[p as int].0, s0[b - 1].0);
                            }
                        } else if a == p {
                            assert(s1[b] == s0[b - 1]);
                            if b - 1 > p {
                                lemma_key_lt_transitive(k, s0[p as int].0, s0[b - 1].0);
                            }
                        } else {
                            assert(s1[a] == s0[a]);
                            assert(s0[a].0 != k);
                            lemma_key_lt_total(s0[a].0, k);
                        }
                    }
                }
                assert(keys_distinct(s1)) by {
                    assert forall|a: int, b: int|
                        0 <= a < s1.len() && 0 <= b < s1.len() && a != b implies (#[trigger] s1[a]).0
                        != (#[trigger] s1[b]).0 by {
                        if a != p && b != p {
                            let a0 = if a < p { a } else { a - 1 };
                            let b0 = if b < p { b } else { b - 1 };
                            assert(s1[a] == s0[a0]);
                            assert(s1[b] == s0[b0]);
                        } else if a != p {
                            let a0 = if a < p { a } else { a - 1 };
                            assert(s1[a] == s0[a0]);
                        } else {
                            let b0 = if b < p { b } else { b - 1 };
                            assert(s1[b] == s0[b0]);
                        }
                    }
                }
                assert(keys_distinct(s1));
                assert forall|q: Seq<char>| #[trigger] self@.contains_key(q) == old(self)@.insert(
                    k,
                    value,
                ).contains_key(q) by {
                    if holds_key(s1, q) && q != k {
                        let j = choose|j: int| 0 <= j < s1.len() && (#[trigger] s1[j]).0 == q;
                        assert(j != p);
                        let j0 = if j < p { j } else { j - 1 };
                        assert(s0[j0] == s1[j]);
                        assert(holds_key(s0, q));
                    }
                    if holds_key(s0, q) {
                        let j = choose|j: int| 0 <= j < s0.len() && (#[trigger] s0[j]).0 == q;
                        let j1 = if j < p { j } else { j + 1 };
                        assert(s1[j1] == s0[j]);
                        assert(holds_key(s1, q));
                    }
                    if q == k {
                        assert(holds_key(s1, q));
                    }
                }
                assert forall|q: Seq<char>| #[trigger] self@.contains_key(q) implies self@[q]
                    == old(self)@.insert(k, value)[q] by {
                    let j = choose|j: int| 0 <= j < s1.len() && (#[trigger] s1[j]).0 == q;
                    lemma_map_of_index(s1, j);
                    if j != p {
                        let j0 = if j < p { j } else { j - 1 };
                        assert(s0[j0] == s1[j]);
                        lemma_map_of_index(s0, j0);
                    }
                }
                assert(self@ =~= old(self)@.insert(k, value));
            },
        }
    }
    /// The value under the key, or `NotFound`.
    pub fn get(&self, key: &String) -> (r: Result<serde_json::Value, StoreError>)
        requires
            self.wf(),
        ensures
            r == (if self@.contains_key(key@) {
                Ok::<serde_json::Value, StoreError>(self@[key@])
            } else {
                Err(StoreError::NotFound)
            }),
    {
        match self.position(key) {
            Some(i) => {
                proof {
                    lemma_map_of_index(self.listing(), i as int);
                }
                Ok(self.entries[i].1.clone())
            },
            None => Err(StoreError::NotFound),
        }
    }

    /// Inserts the key only where it is absent; `Conflict` leaves the store as it was.
    pub fn create_key_with_key(&mut self, key: String, value: serde_json::Value) -> (r: Result<
        (),
        StoreError,
    >)
        requires
            old(self).wf(),
        ensures
            final(self).wf(),
            old(self)@.contains_key(key@) ==> r == Err::<(), StoreError>(StoreError::Conflict)
                && final(self)@ == old(self)@,
            !old(self)@.contains_key(key@) ==> r is Ok && final(self)@ == old(self)@.insert(
                key@,
                value,
            ),
    {
        if self.contains(&key) {
            return Err(StoreError::Conflict);
        }
        self.insert(key, value);
        Ok(())
    }

    /// Inserts the value under a fresh random key of `KEY_LEN` ASCII letters and
    /// digits, drawing again while the key is taken. `None`, with the store
    /// unchanged, only where every one of `KEY_DRAWS` draws was taken.
    pub fn create_key(&mut self, value: serde_json::Value) -> (r: Option<String>)
        requires
            old(self).wf(),
        ensures
            final(self).wf(),
            r is Some ==> !old(self)@.contains_key(r->0@) && final(self)@ == old(self)@.insert(
                r->0@,
                value,
            ),
            r is Some ==> is_generated_key(r->0@),
            r is None ==> final(self)@ == old(self)@,
            no_generated_key(old(self)@) ==> r is Some,
    {
        let mut draws: u64 = 0;
        while draws < KEY_DRAWS
            invariant
                self.wf(),
                self@ == old(self)@,
                no_generated_key(old(self)@) ==> draws == 0,
            decreases KEY_DRAWS - draws,
        {
            let key = random_key(KEY_LEN);
            if !self.contains(&key) {
                let handed = key.clone();
                self.insert(key, value);
                return Some(handed);
            }
            draws = draws + 1;
        }
        None
    }

    /// Removes the key, or reports `NotFound` and leaves the store as it was.
    pub fn delete(&mut self, key: &String) -> (r: Result<(), StoreError>)
        requires
            old(self).wf(),
        ensures
            final(self).wf(),
            old(self)@.contains_key(key@) ==> r is Ok && final(self)@ == old(self)@.remove(key@),
            !old(self)@.contains_key(key@) ==> r == Err::<(), StoreError>(StoreError::NotFound)
                && final(self)@ == old(self)@,
    {
        match self.position(key) {
            None => Err(StoreError::NotFound),
            Some(i) => {
                let ghost k = key@;
                let ghost s0 = self.listing();
                self.entries.remove(i);
                let ghost s1 = self.listing();
                assert(s1 =~= s0.remove(i as int));
                assert(keys_ascending(s1)) by {
                    assert forall|a: int, b: int| 0 <= a < b < s1.len() implies key_lt(
                        (#[trigger] s1[a]).0,
                        (#[trigger] s1[b]).0,
                    ) by {
                        let a0 = if a < i { a } else { a + 1 };
                        let b0 = if b < i { b } else { b + 1 };
                        assert(s1[a] == s0[a0]);
                        assert(s1[b] == s0[b0]);
                    }
                }
                assert(keys_distinct(s1)) by {
                    assert forall|a: int, b: int|
                        0 <= a < s1.len() && 0 <= b < s1.len() && a != b implies (#[trigger] s1[a]).0
                        != (#[trigger] s1[b]).0 by {
                        let a0 = if a < i { a } else { a + 1 };
                        let b0 = if b < i { b } else { b + 1 };
                        assert(s1[a] == s0[a0]);
                        assert(s1[b] == s0[b0]);
                    }
                }
                assert forall|q: Seq<char>| #[trigger] self@.contains_key(q) == old(self)@.remove(
                    k,
                ).contains_key(q) by {
                    if holds_key(s1, q) {
                        let j = choose|j: int| 0 <= j < s1.len() && (#[trigger] s1[j]).0 == q;
                        let j0 = if j < i { j } else { j + 1 };
                        assert(s1[j] == s0[j0]);
                        assert(holds_key(s0, q));
                        assert(j0 != i);
                    }
                    if holds_key(s0, q) && q != k {
                        let j = choose|j: int| 0 <= j < s0.len() && (#[trigger] s0[j]).0 == q;
                        assert(j != i);
                        let j1 = if j < i { j } else { j - 1 };
                        assert(s1[j1] == s0[j]);
                        assert(holds_key(s1, q));
                    }
                }
                assert forall|q: Seq<char>| #[trigger] self@.contains_key(q) implies self@[q]
                    == old(self)@.remove(k)[q] by {
                    let j = choose|j: int| 0 <= j < s1.len() && (#[trigger] s1[j]).0 == q;
                    let j0 = if j < i { j } else { j + 1 };
                    assert(s1[j] == s0[j0]);
                    lemma_map_of_index(s1, j);
                    lemma_map_of_index(s0, j0);
                }
                assert(self@ =~= old(self)@.remove(k));
                Ok(())
            },
        }
    }

    /// Entries `skip .. skip + limit` of the listing (0 and `DEFAULT_LIMIT` where
    /// not given), or `NotFound` where that window is empty.
    pub fn list_keys(&self, skip: Option<u64>, limit: Option<u64>) -> (r: Result<
        Vec<(String, serde_json::Value)>,
        StoreError,
    >)
        ensures
            ({
                let s = match skip {
                    Some(x) => x as int,
                    None => 0,
                };
                let l = match limit {
                    Some(x) => x as int,
                    None => DEFAULT_LIMIT as int,
                };
                &&& r is Ok <==> window(self.listing(), s, l) is Ok
                &&& r is Err ==> r == Err::<Vec<(String, serde_json::Value)>, StoreError>(
                    StoreError::NotFound,
                )
                &&& r is Ok ==> r->Ok_0@.map_values(|e: (String, serde_json::Value)| (e.0@, e.1))
                    == window(self.listing(), s, l)->Ok_0
            }),
    {
        let s: u64 = match skip {
            Some(x) => x,
            None => 0,
        };
        let l: u64 = match limit {
            Some(x) => x,
            None => DEFAULT_LIMIT,
        };
        let n: u64 = self.entries.len() as u64;
        if s >= n || l == 0 {
            return Err(StoreError::NotFound);
        }
        let end: u64 = if l >= n - s {
            n
        } else {
            s + l
        };
        let lo: usize = s as usize;
        let hi: usize = end as usize;
        let ghost want = self.listing().subrange(lo as int, hi as int);
        let mut out: Vec<(String, serde_json::Value)> = Vec::new();
        let mut i: usize = lo;
        while i < hi
            invariant
                lo <= i <= hi <= self.entries@.len(),
                want == self.listing().subrange(lo as int, hi as int),
                out@.map_values(|e: (String, serde_json::Value)| (e.0@, e.1)) =~= want.subrange(
                    0,
                    i - lo,
                ),
            decreases hi - i,
        {
            let key = self.entries[i].0.clone();
            let value = self.entries[i].1.clone();
            assert(self.listing()[i as int] == (key@, value));
            let ghost prev = out@;
            let ghost item = (key@, value);
            out.push((key, value));
            assert(out@.map_values(|e: (String, serde_json::Value)| (e.0@, e.1)) =~= prev.map_values(
                |e: (String, serde_json::Value)| (e.0@, e.1),
            ).push(item));
            i = i + 1;
        }
        Ok(out)
    }
}


/// In a well-formed store no two entries of the listing share a key.
pub proof fn lemma_keys_unique(store: &KVStore, i: int, j: int)
    requires
        store.wf(),
        0 <= i < store.listing().len(),
        0 <= j < store.listing().len(),
        i != j,
    ensures
        store.listing()[i].0 != store.listing()[j].0,
{
}

/// After a successful delete of `k` (the map loses `k`), a get of `k` finds nothing;
/// after a create or upsert of `k` with `v`, a get of `k` returns exactly `v`.
pub proof fn lemma_get_after_write(m: Map<Seq<char>, serde_json::Value>, k: Seq<char>, v: serde_json::Value)
    ensures
        !m.remove(k).contains_key(k),
        m.insert(k, v).contains_key(k),
        m.insert(k, v)[k] == v,
{
}

/// An upsert replaces the whole value of a present key, and adds an absent one,
/// leaving every other key as it was.
pub proof fn lemma_upsert_replaces(m: Map<Seq<char>, serde_json::Value>, k: Seq<char>, v: serde_json::Value)
    ensures
        m.insert(k, v)[k] == v,
        m.insert(k, v).dom() == m.dom().insert(k),
        forall|q: Seq<char>| q != k && m.contains_key(q) ==> #[trigger] m.insert(k, v)[q] == m[q],
{
}

/// A listing window is the slice `[skip, min(skip + limit, len))` of the
/// listing, and `NotFound` exactly where that slice is empty.
pub proof fn lemma_window_slice(s: Seq<(Seq<char>, serde_json::Value)>, skip: int, limit: int)
    requires
        skip >= 0,
        limit >= 0,
    ensures
        window(s, skip, limit) is Ok <==> skip < s.len() && limit > 0,
        window(s, skip, limit) is Ok ==> window(s, skip, limit)->Ok_0 == s.subrange(
            skip,
            if skip + limit < s.len() {
                skip + limit
            } else {
                s.len() as int
            },
        ),
        window(s, skip, limit) is Ok ==> window(s, skip, limit)->Ok_0.len() > 0,
{
}

proof fn lemma_map_of_drop_first(a: Seq<(Seq<char>, serde_json::Value)>)
    requires
        keys_distinct(a),
        a.len() > 0,
    ensures
        map_of(a.drop_first()) == map_of(a).remove(a[0].0),
        keys_distinct(a.drop_first()),
{
    let t = a.drop_first();
    assert(keys_distinct(t)) by {
        assert forall|i: int, j: int| 0 <= i < t.len() && 0 <= j < t.len() && i != j implies (
        #[trigger] t[i]).0 != (#[trigger] t[j]).0 by {
            assert(t[i] == a[i + 1] && t[j] == a[j + 1]);
        }
    }
    assert forall|q: Seq<char>| #[trigger] map_of(t).contains_key(q) == map_of(a).remove(
        a[0].0,
    ).contains_key(q) by {
        if holds_key(t, q) {
            let j = choose|j: int| 0 <= j < t.len() && (#[trigger] t[j]).0 == q;
            assert(t[j] == a[j + 1]);
            assert(holds_key(a, q));
        }
        if holds_key(a, q) && q != a[0].0 {
            let j = choose|j: int| 0 <= j < a.len() && (#[trigger] a[j]).0 == q;
            assert(j != 0);
            assert(t[j - 1] == a[j]);
            assert(holds_key(t, q));
        }
    }
    assert forall|q: Seq<char>| #[trigger] map_of(t).contains_key(q) implies map_of(t)[q]
        == map_of(a).remove(a[0].0)[q] by {
        let j = choose|j: int| 0 <= j < t.len() && (#[trigger] t[j]).0 == q;
        assert(t[j] == a[j + 1]);
        lemma_map_of_index(t, j);
        lemma_map_of_index(a, j + 1);
    }
    assert(map_of(t) =~= map_of(a).remove(a[0].0));
}

/// Two listings that ascend strictly by key and stand for the same map are
/// the same listing.
pub proof fn lemma_listing_of_map(
    a: Seq<(Seq<char>, serde_json::Value)>,
    b: Seq<(Seq<char>, serde_json::Value)>,
)
    requires
        keys_distinct(a),
        keys_ascending(a),
        keys_distinct(b),
        keys_ascending(b),
        map_of(a) == map_of(b),
    ensures
        a == b,
    decreases a.len(),
{
    if a.len() == 0 || b.len() == 0 {
        if b.len() > 0 {
            lemma_map_of_index(b, 0);
        }
        if a.len() > 0 {
            lemma_map_of_index(a, 0);
        }
        assert(a =~= b);
    } else {
        let ka = a[0].0;
        let kb = b[0].0;
        lemma_map_of_index(a, 0);
        lemma_map_of_index(b, 0);
        if ka != kb {
            let j = choose|j: int| 0 <= j < b.len() && (#[trigger] b[j]).0 == ka;
            let i = choose|i: int| 0 <= i < a.len() && (#[trigger] a[i]).0 == kb;
            assert(j > 0 && i > 0);
            assert(key_lt(kb, ka));
            assert(key_lt(ka, kb));
            lemma_key_lt_transitive(ka, kb, ka);
            lemma_key_lt_irreflexive(ka);
        }
        assert(a[0] == b[0]);
        lemma_map_of_drop_first(a);
        lemma_map_of_drop_first(b);
        let ta = a.drop_first();
        let tb = b.drop_first();
        assert(keys_ascending(ta)) by {
            assert forall|i: int, j: int| 0 <= i < j < ta.len() implies key_lt(
                (#[trigger] ta[i]).0,
                (#[trigger] ta[j]).0,
            ) by {
                assert(ta[i] == a[i + 1] && ta[j] == a[j + 1]);
            }
        }
        assert(keys_ascending(tb)) by {
            assert forall|i: int, j: int| 0 <= i < j < tb.len() implies key_lt(
                (#[trigger] tb[i]).0,
                (#[trigger] tb[j]).0,
            ) by {
                assert(tb[i] == b[i + 1] && tb[j] == b[j + 1]);
            }
        }
        lemma_listing_of_map(ta, tb);
        assert(a =~= seq![a[0]] + ta);
        assert(b =~= seq![b[0]] + tb);
    }
}

/// Well-formed stores with the same contents have the same listing, so what
/// `list_keys` and the encoder hand out depends on the map alone.
pub proof fn lemma_listing_depends_on_map(s1: &KVStore, s2: &KVStore)
    requires
        s1.wf(),
        s2.wf(),
        s1@ == s2@,
    ensures
        s1.listing() == s2.listing(),
{
    lemma_listing_of_map(s1.listing(), s2.listing());
}

/// A run of creates that each put a value under a key absent before (what
/// `create_key` does whenever it returns a key): the keys are pairwise
/// distinct and new to the first map, the store grows by one per create, each
/// key holds its value, and every earlier entry keeps its value.
pub proof fn lemma_create_run(
    ms: Seq<Map<Seq<char>, serde_json::Value>>,
    ks: Seq<Seq<char>>,
    vs: Seq<serde_json::Value>,
)
    requires
        ms.len() == ks.len() + 1,
        vs.len() == ks.len(),
        ms[0].dom().finite(),
        forall|i: int|
            0 <= i < ks.len() ==> !(#[trigger] ms[i]).contains_key(ks[i]) && ms[i + 1] == ms[i].insert(
                ks[i],
                vs[i],
            ),
    ensures
        forall|i: int, j: int| 0 <= i < j < ks.len() ==> (#[trigger] ks[i]) != (#[trigger] ks[j]),
        forall|i: int| 0 <= i < ks.len() ==> !ms[0].contains_key(#[trigger] ks[i]),
        ms.last().dom().finite(),
        ms.last().len() == ms[0].len() + ks.len(),
        forall|i: int|
            0 <= i < ks.len() ==> ms.last().contains_key(#[trigger] ks[i]) && ms.last()[ks[i]]
                == vs[i],
        forall|q: Seq<char>|
            #[trigger] ms[0].contains_key(q) ==> ms.last().contains_key(q) && ms.last()[q]
                == ms[0][q],
    decreases ks.len(),
{
    let n = ks.len() as int;
    if n > 0 {
        let ms1 = ms.drop_last();
        let ks1 = ks.drop_last();
        let vs1 = vs.drop_last();
        assert forall|i: int| 0 <= i < ks1.len() implies !(#[trigger] ms1[i]).contains_key(ks1[i])
            && ms1[i + 1] == ms1[i].insert(ks1[i], vs1[i]) by {
            assert(ms1[i] == ms[i] && ms1[i + 1] == ms[i + 1]);
            assert(!ms[i].contains_key(ks[i]));
        }
        lemma_create_run(ms1, ks1, vs1);
        let m = ms[n - 1];
        assert(ms1.last() == m);
        let k = ks[n - 1];
        assert(!ms[n - 1].contains_key(ks[n - 1]));
        assert(ms.last() == m.insert(k, vs[n - 1]));
        assert forall|i: int| 0 <= i < n - 1 implies ks[i] != k by {
            assert(ks1[i] == ks[i]);
            assert(m.contains_key(ks1[i]));
        }
        assert forall|i: int, j: int| 0 <= i < j < n implies (#[trigger] ks[i]) != (
        #[trigger] ks[j]) by {
            if j < n - 1 {
                assert(ks1[i] == ks[i] && ks1[j] == ks[j]);
            } else {
                assert(ks1[i] == ks[i]);
                assert(m.contains_key(ks1[i]));
            }
        }
        assert forall|i: int| 0 <= i < n implies !ms[0].contains_key(#[trigger] ks[i]) by {
            if i < n - 1 {
                assert(ks1[i] == ks[i]);
            } else if ms[0].contains_key(ks[i]) {
                assert(ms1[0] == ms[0]);
                assert(m.contains_key(k));
            }
        }
        assert forall|i: int| 0 <= i < n implies ms.last().contains_key(#[trigger] ks[i])
            && ms.last()[ks[i]] == vs[i] by {
            if i < n - 1 {
                assert(ks1[i] == ks[i] && vs1[i] == vs[i]);
                assert(m.contains_key(ks1[i]));
            }
        }
        assert(ms1[0] == ms[0]);
        assert(m.dom().insert(k).len() == m.dom().len() + 1);
        assert(ms.last().dom() =~= m.dom().insert(k));
    }
}

/// From an empty store, two generated-key creates give two distinct keys;
/// after deleting the first, it is gone and the second keeps its value.
pub proof fn lemma_create_twice_delete_first(
    k1: Seq<char>,
    v1: serde_json::Value,
    k2: Seq<char>,
    v2: serde_json::Value,
)
    requires
        !Map::<Seq<char>, serde_json::Value>::empty().insert(k1, v1).contains_key(k2),
    ensures
        k1 != k2,
        Map::<Seq<char>, serde_json::Value>::empty().insert(k1, v1).insert(k2, v2).len() == 2,
        !Map::<Seq<char>, serde_json::Value>::empty().insert(k1, v1).insert(k2, v2).remove(
            k1,
        ).contains_key(k1),
        Map::<Seq<char>, serde_json::Value>::empty().insert(k1, v1).insert(k2, v2).remove(k1)
            =~= Map::<Seq<char>, serde_json::Value>::empty().insert(k2, v2),
{
    let m2 = Map::<Seq<char>, serde_json::Value>::empty().insert(k1, v1).insert(k2, v2);
    assert(m2.dom() =~= Set::<Seq<char>>::empty().insert(k1).insert(k2));
    assert(Set::<Seq<char>>::empty().insert(k1).len() == 1);
}

} // verus!
