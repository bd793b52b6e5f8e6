//! The keyspace: text values under text keys, each with an optional expiry.
use vstd::prelude::*;
use crate::text::same_text;

verus! {

/// One stored value. Instants are milliseconds on the caller's clock.
struct StoreEntry {
    key: String,
    value: String,
    expires_at: Option<u128>,
}

/// What a key holds: its value, and the instant it expires at, if any.
pub struct Stored {
    pub value: Seq<char>,
    pub expires_at: Option<int>,
}

/// True when an entry that expires at `expires_at` is still present at `now`.
pub open spec fn is_live(expires_at: Option<int>, now: int) -> bool {
    match expires_at {
        Some(t) => now < t,
        None => true,
    }
}

/// What a reader at `now` sees under `key`.
pub open spec fn visible(m: Map<Seq<char>, Stored>, key: Seq<char>, now: int) -> Option<Seq<char>> {
    if m.contains_key(key) && is_live(m[key].expires_at, now) {
        Some(m[key].value)
    } else {
        None
    }
}

/// A time to live, in whole seconds or in milliseconds.
#[derive(Debug, Clone, Copy, PartialEq, Eq, Structural)]
pub enum Ttl {
    Seconds(u64),
    Millis(u64),
}

/// The length of a time to live, in milliseconds.
pub open spec fn ttl_millis(t: Ttl) -> nat {
    match t {
        Ttl::Seconds(s) => s as nat * 1000,
        Ttl::Millis(m) => m as nat,
    }
}

/// The instant at which an entry set at `now` with time to live `ttl` expires.
pub open spec fn expiry_of(ttl: Option<Ttl>, now: u64) -> Option<int> {
    match ttl {
        Some(t) => Some(now + ttl_millis(t)),
        None => None,
    }
}

spec fn stored_of(e: StoreEntry) -> Stored {
    Stored {
        value: e.value@,
        expires_at: match e.expires_at {
            Some(t) => Some(t as int),
            None => None,
        },
    }
}

/// An entry set with a time to live is seen until that much time has passed
/// since it was set, and from then on it is absent.
pub proof fn ttl_expiry(m: Map<Seq<char>, Stored>, key: Seq<char>, value: Seq<char>, ttl: Ttl, now: u64, later: int)
    requires
        now <= later,
    ensures
        later < now + ttl_millis(ttl) ==> visible(
            m.insert(key, Stored { value, expires_at: expiry_of(Some(ttl), now) }),
            key,
            later,
        ) == Some(value),
        later >= now + ttl_millis(ttl) ==> visible(
            m.insert(key, Stored { value, expires_at: expiry_of(Some(ttl), now) }),
            key,
            later,
        ) is None,
{
}

/// An entry set without a time to live is seen at every later instant, and
/// a read never drops it.
pub proof fn persistence(m: Map<Seq<char>, Stored>, key: Seq<char>, value: Seq<char>, now: u64, later: int)
    ensures
        visible(m.insert(key, Stored { value, expires_at: expiry_of(None, now) }), key, later)
            == Some(value),
        is_live(m.insert(key, Stored { value, expires_at: expiry_of(None, now) })[key].expires_at, later),
{
}

/// The second of two writes to a key wins, whatever the first one was.
pub proof fn overwrite(
    m: Map<Seq<char>, Stored>,
    key: Seq<char>,
    first: Seq<char>,
    first_ttl: Option<Ttl>,
    second: Seq<char>,
    now1: u64,
    now2: u64,
    later: int,
)
    ensures
        visible(
            m.insert(key, Stored { value: first, expires_at: expiry_of(first_ttl, now1) }).insert(
                key,
                Stored { value: second, expires_at: expiry_of(None, now2) },
            ),
            key,
            later,
        ) == Some(second),
{
}

/// What a reader finds under a key.
#[derive(Debug, PartialEq, Eq)]
pub enum Lookup {
    /// A value that has not expired.
    Live(String),
    /// Nothing was ever stored, or it was dropped.
    Missing,
    /// An entry is there, but its expiry instant has passed.
    Expired,
}

/// The keyspace.
pub struct Store {
    entries: Vec<StoreEntry>,
}

impl View for Store {
    type V = Map<Seq<char>, Stored>;

    closed spec fn view(&self) -> Map<Seq<char>, Stored> {
        Map::new(
            |k: Seq<char>| exists|i: int| 0 <= i < self.entries@.len() && #[trigger] self.entries@[i].key@ == k,
            |k: Seq<char>|
                stored_of(
                    self.entries@[choose|i: int|
                        0 <= i < self.entries@.len() && #[trigger] self.entries@[i].key@ == k],
                ),
        )
    }
}

impl Store {
    /// Each key stands in one entry at most.
    pub closed spec fn wf(&self) -> bool {
        forall|i: int, j: int|
            0 <= i < self.entries@.len() && 0 <= j < self.entries@.len() && i != j
                ==> #[trigger] self.entries@[i].key@ != #[trigger] self.entries@[j].key@
    }

    proof fn lemma_at(&self, i: int)
        requires
            self.wf(),
            0 <= i < self.entries@.len(),
        ensures
            self@.contains_key(self.entries@[i].key@),
            self@[self.entries@[i].key@] == stored_of(self.entries@[i]),
    {
        let k = self.entries@[i].key@;
        assert(self.entries@[i].key@ == k);
        let j = choose|j: int| 0 <= j < self.entries@.len() && #[trigger] self.entries@[j].key@ == k;
        assert(j == i);
    }

    /// An empty keyspace.
    pub fn new() -> (r: Self)
        ensures
            r.wf(),
            r@ == Map::<Seq<char>, Stored>::empty(),
    {
        let r = Store { entries: Vec::new() };
        assert(r@ =~= Map::<Seq<char>, Stored>::empty());
        r
    }

    /// The index of the entry under `key`.
    fn find(&self, key: &str) -> (r: Option<usize>)
        requires
            self.wf(),
        ensures
            match r {
                Some(i) => i < self.entries@.len() && self.entries@[i as int].key@ == key@,
                None => !self@.contains_key(key@),
            },
    {
        let mut i: usize = 0;
        while i < self.entries.len()
            invariant
                i <= self.entries@.len(),
                forall|j: int| 0 <= j < i ==> #[trigger] self.entries@[j].key@ != key@,
            decreases self.entries@.len() - i,
        {
            if same_text(self.entries[i].key.as_str(), key) {
                return Some(i);
            }
            i = i + 1;
        }
        None
    }

    /// What a reader at `now` finds under `key`, leaving the keyspace as it is.
    pub fn lookup(&self, key: &str, now: u64) -> (r: Lookup)
        requires
            self.wf(),
        ensures
            !self@.contains_key(key@) <==> r is Missing,
            self@.contains_key(key@) && !is_live(self@[key@].expires_at, now as int) <==> r is Expired,
            r matches Lookup::Live(s) ==> visible(self@, key@, now as int) == Some(s@),
            r is Live <==> visible(self@, key@, now as int) is Some,
    {
        match self.find(key) {
            None => Lookup::Missing,
            Some(i) => {
                proof {
                    self.lemma_at(i as int);
                }
                let expired = match self.entries[i].expires_at {
                    Some(t) => t <= now as u128,
                    None => false,
                };
                if expired {
                    Lookup::Expired
                } else {
                    Lookup::Live(self.entries[i].value.clone())
                }
            },
        }
    }

    /// The value under `key`, unless it is absent or expired at `now`. An
    /// expired entry found on the way is dropped.
    pub fn get(&mut self, key: &str, now: u64) -> (r: Option<String>)
        requires
            old(self).wf(),
        ensures
            final(self).wf(),
            match visible(old(self)@, key@, now as int) {
                Some(v) => r matches Some(s) && s@ == v,
                None => r is None,
            },
            final(self)@ == if old(self)@.contains_key(key@) && !is_live(
                old(self)@[key@].expires_at,
                now as int,
            ) {
                old(self)@.remove(key@)
            } else {
                old(self)@
            },
    {
        match self.find(key) {
            None => None,
            Some(i) => {
                proof {
                    self.lemma_at(i as int);
                }
                let expired = match self.entries[i].expires_at {
                    Some(t) => t <= now as u128,
                    None => false,
                };
                if expired {
                    let ghost before = *self;
                    self.entries.remove(i);
                    proof {
                        self.lemma_removed(before, i as int);
                    }
                    None
                } else {
                    Some(self.entries[i].value.clone())
                }
            },
        }
    }

    proof fn lemma_removed(&self, before: Store, i: int)
        requires
            before.wf(),
            0 <= i < before.entries@.len(),
            self.entries@ == before.entries@.remove(i),
        ensures
            self.wf(),
            self@ == before@.remove(before.entries@[i].key@),
    {
        let k = before.entries@[i].key@;
        assert forall|a: int, b: int|
            0 <= a < self.entries@.len() && 0 <= b < self.entries@.len() && a != b
                implies #[trigger] self.entries@[a].key@ != #[trigger] self.entries@[b].key@ by {
            let a0 = if a < i { a } else { a + 1 };
            let b0 = if b < i { b } else { b + 1 };
            assert(self.entries@[a] == before.entries@[a0]);
            assert(self.entries@[b] == before.entries@[b0]);
        }
        assert forall|key: Seq<char>| #[trigger] self@.contains_key(key) == before@.remove(k).contains_key(key) by {
            if self@.contains_key(key) {
                let a = choose|a: int| 0 <= a < self.entries@.len() && #[trigger] self.entries@[a].key@ == key;
                let a0 = if a < i { a } else { a + 1 };
                assert(before.entries@[a0].key@ == key);
            }
            if before@.remove(k).contains_key(key) {
                let a0 = choose|a: int| 0 <= a < before.entries@.len() && #[trigger] before.entries@[a].key@ == key;
                assert(a0 != i);
                let a = if a0 < i { a0 } else { a0 - 1 };
                assert(self.entries@[a].key@ == key);
            }
        }
        assert forall|key: Seq<char>| #[trigger] self@.contains_key(key) implies self@[key] == before@.remove(k)[key] by {
            let a = choose|a: int| 0 <= a < self.entries@.len() && #[trigger] self.entries@[a].key@ == key;
            let a0 = if a < i { a } else { a + 1 };
            self.lemma_at(a);
            before.lemma_at(a0);
        }
        assert(self@ =~= before@.remove(k));
    }

    /// Stores `value` under `key`, in place of what was there. With a time to
    /// live, the entry expires that long after `now`.
    pub fn set(&mut self, key: String, value: String, ttl: Option<Ttl>, now: u64)
        requires
            old(self).wf(),
        ensures
            final(self).wf(),
            final(self)@ == old(self)@.insert(
                key@,
                Stored { value: value@, expires_at: expiry_of(ttl, now) },
            ),
    {
        let expires_at: Option<u128> = match ttl {
            Some(Ttl::Seconds(t)) => Some(now as u128 + t as u128 * 1000),
            Some(Ttl::Millis(t)) => Some(now as u128 + t as u128),
            None => None,
        };
        let ghost before = *self;
        let ghost k = key@;
        let entry = StoreEntry { key, value, expires_at };
        assert(stored_of(entry) == Stored { value: value@, expires_at: expiry_of(ttl, now) });
        match self.find(entry.key.as_str()) {
            Some(i) => {
                self.entries.set(i, entry);
                assert(self.entries@ == before.entries@.update(i as int, entry));
                proof {
                    self.lemma_replaced(before, i as int, entry);
                }
            },
            None => {
                self.entries.push(entry);
                proof {
                    self.lemma_pushed(before, entry);
                }
            },
        }
    }

    proof fn lemma_replaced(&self, before: Store, i: int, e: StoreEntry)
        requires
            before.wf(),
            0 <= i < before.entries@.len(),
            before.entries@[i].key@ == e.key@,
            self.entries@ == before.entries@.update(i, e),
        ensures
            self.wf(),
            self@ == before@.insert(e.key@, stored_of(e)),
    {
        assert forall|a: int, b: int|
            0 <= a < self.entries@.len() && 0 <= b < self.entries@.len() && a != b
                implies #[trigger] self.entries@[a].key@ != #[trigger] self.entries@[b].key@ by {
            assert(self.entries@[a].key@ == before.entries@[a].key@);
            assert(self.entries@[b].key@ == before.entries@[b].key@);
        }
        assert forall|key: Seq<char>| #[trigger] self@.contains_key(key) == before@.insert(e.key@, stored_of(e)).contains_key(key) by {
            if self@.contains_key(key) {
                let a = choose|a: int| 0 <= a < self.entries@.len() && #[trigger] self.entries@[a].key@ == key;
                assert(before.entries@[a].key@ == key);
            }
            if before@.contains_key(key) {
                let a = choose|a: int| 0 <= a < before.entries@.len() && #[trigger] before.entries@[a].key@ == key;
                assert(self.entries@[a].key@ == key);
            }
            assert(self.entries@[i].key@ == e.key@);
        }
        assert forall|key: Seq<char>| #[trigger] self@.contains_key(key) implies self@[key] == before@.insert(e.key@, stored_of(e))[key] by {
            let a = choose|a: int| 0 <= a < self.entries@.len() && #[trigger] self.entries@[a].key@ == key;
            self.lemma_at(a);
            if a != i {
                before.lemma_at(a);
            }
        }
        assert(self@ =~= before@.insert(e.key@, stored_of(e)));
    }

    proof fn lemma_pushed(&self, before: Store, e: StoreEntry)
        requires
            before.wf(),
            !before@.contains_key(e.key@),
            self.entries@ == before.entries@.push(e),
        ensures
            self.wf(),
            self@ == before@.insert(e.key@, stored_of(e)),
    {
        let n = before.entries@.len() as int;
        assert forall|a: int| 0 <= a < n implies #[trigger] before.entries@[a].key@ != e.key@ by {
            if before.entries@[a].key@ == e.key@ {
                assert(before@.contains_key(e.key@));
            }
        }
        assert forall|a: int, b: int|
            0 <= a < self.entries@.len() && 0 <= b < self.entries@.len() && a != b
                implies #[trigger] self.entries@[a].key@ != #[trigger] self.entries@[b].key@ by {
            if a < n && b < n {
                assert(self.entries@[a] == before.entries@[a]);
                assert(self.entries@[b] == before.entries@[b]);
            } else if a < n {
                assert(self.entries@[a] == before.entries@[a]);
            } else {
                assert(self.entries@[b] == before.entries@[b]);
            }
        }
        assert forall|key: Seq<char>| #[trigger] self@.contains_key(key) == before@.insert(e.key@, stored_of(e)).contains_key(key) by {
            if self@.contains_key(key) {
                let a = choose|a: int| 0 <= a < self.entries@.len() && #[trigger] self.entries@[a].key@ == key;
                if a < n {
                    assert(before.entries@[a].key@ == key);
                }
            }
            if before@.contains_key(key) {
                let a = choose|a: int| 0 <= a < before.entries@.len() && #[trigger] before.entries@[a].key@ == key;
                assert(self.entries@[a].key@ == key);
            }
            assert(self.entries@[n].key@ == e.key@);
        }
        assert forall|key: Seq<char>| #[trigger] self@.contains_key(key) implies self@[key] == before@.insert(e.key@, stored_of(e))[key] by {
            let a = choose|a: int| 0 <= a < self.entries@.len() && #[trigger] self.entries@[a].key@ == key;
            self.lemma_at(a);
            if a < n {
                before.lemma_at(a);
            }
        }
        assert(self@ =~= before@.insert(e.key@, stored_of(e)));
    }
}

impl Default for Store {
    /// An empty keyspace.
    fn default() -> (r: Self)
        ensures
            r.wf(),
            r@ == Map::<Seq<char>, Stored>::empty(),
    {
        Store::new()
    }
}

} // verus!
