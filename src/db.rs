use vstd::prelude::*;
use std::time::Instant;
use crate::config::Mode;

verus! {

/// A reading of std's monotonic clock, opaque here.
#[verifier::external_type_specification]
#[verifier::external_body]
pub struct ExInstant(Instant);

/// Relies on `Instant::now`: a reading of the monotonic clock; nothing is promised of it.
pub assume_specification[ Instant::now ]() -> Instant;

/// Relies on `Instant`'s `Clone`: `Instant` is `Copy`, so a clone is the same reading.
pub assume_specification[ <Instant as Clone>::clone ](i: &Instant) -> (r: Instant)
    ensures
        r == *i,
;

/// Relies on `Instant::elapsed`: the time that has passed since `origin`, here in
/// whole milliseconds. Nothing is promised of what a reading returns.
#[verifier::external_body]
fn millis_since(origin: &Instant) -> u64 {
    origin.elapsed().as_millis() as u64
}

/// A stored value and the moment, in milliseconds of the store's clock, at which it
/// expires, if it does.
#[derive(Clone, Debug)]
pub struct SetObject {
    pub value: String,
    pub duration: Option<u64>,
}

impl SetObject {
    pub fn new(value: String, duration: Option<u64>) -> (r: Self)
        ensures
            r.value == value,
            r.duration == duration,
    {
        SetObject { value, duration }
    }

    fn duplicate(&self) -> (r: Self)
        ensures
            r.value@ == self.value@,
            r.duration == self.duration,
    {
        SetObject { value: self.value.clone(), duration: self.duration }
    }
}

/// What an entry holds: its text and its expiry.
pub open spec fn entry_view(o: SetObject) -> (Seq<char>, Option<u64>) {
    (o.value@, o.duration)
}

/// The contents of a store: each key's text and expiry.
pub type StoreModel = Map<Seq<char>, (Seq<char>, Option<u64>)>;

/// The map that a list of entries stands for; a later entry for a key hides an earlier one.
pub open spec fn store_map(s: Seq<(String, SetObject)>) -> StoreModel
    decreases s.len(),
{
    if s.len() == 0 {
        Map::empty()
    } else {
        store_map(s.drop_last()).insert(s.last().0@, entry_view(s.last().1))
    }
}

/// When an entry written at `now` with the given time-to-live expires: never without
/// one, else `now + ttl`, or the clock's last moment when that does not fit.
pub open spec fn expiry(ttl: Option<u64>, now: u64) -> Option<u64> {
    match ttl {
        Some(ms) => Some(
            if now + ms > u64::MAX {
                u64::MAX
            } else {
                (now + ms) as u64
            },
        ),
        None => None,
    }
}

/// `key` is present in `store` and has not expired at `now`.
pub open spec fn is_live(store: StoreModel, key: Seq<char>, now: u64) -> bool {
    &&& store.contains_key(key)
    &&& !(store[key].1 matches Some(t) && now >= t)
}

/// The key-value store, with the role of the node that serves it.
#[derive(Clone, Debug)]
pub struct Database {
    pub store: Vec<(String, SetObject)>,
    pub mode: Mode,
    pub replicaof: Option<Vec<String>>,
    pub origin: Instant,
}

impl View for Database {
    type V = StoreModel;

    open spec fn view(&self) -> StoreModel {
        store_map(self.store@)
    }
}

proof fn lemma_store_found(s: Seq<(String, SetObject)>, i: int, k: Seq<char>)
    requires
        0 <= i < s.len(),
        s[i].0@ == k,
        forall|j: int| i < j < s.len() ==> (#[trigger] s[j]).0@ != k,
    ensures
        store_map(s).contains_key(k),
        store_map(s)[k] == entry_view(s[i].1),
    decreases s.len(),
{
    if i < s.len() - 1 {
        lemma_store_found(s.drop_last(), i, k);
        assert(s[s.len() - 1].0@ != k);
    }
}

proof fn lemma_store_absent(s: Seq<(String, SetObject)>, k: Seq<char>)
    requires
        forall|j: int| 0 <= j < s.len() ==> (#[trigger] s[j]).0@ != k,
    ensures
        !store_map(s).contains_key(k),
    decreases s.len(),
{
    if s.len() > 0 {
        lemma_store_absent(s.drop_last(), k);
        assert(s[s.len() - 1].0@ != k);
    }
}

proof fn lemma_store_update(s: Seq<(String, SetObject)>, i: int, x: (String, SetObject))
    requires
        0 <= i < s.len(),
        s[i].0@ == x.0@,
        forall|j: int| i < j < s.len() ==> (#[trigger] s[j]).0@ != x.0@,
    ensures
        store_map(s.update(i, x)) == store_map(s).insert(x.0@, entry_view(x.1)),
    decreases s.len(),
{
    let t = s.update(i, x);
    if i == s.len() - 1 {
        assert(t.drop_last() =~= s.drop_last());
        assert(store_map(t) =~= store_map(s).insert(x.0@, entry_view(x.1)));
    } else {
        lemma_store_update(s.drop_last(), i, x);
        assert(t.drop_last() =~= s.drop_last().update(i, x));
        assert(s[s.len() - 1].0@ != x.0@);
        assert(store_map(t) =~= store_map(s).insert(x.0@, entry_view(x.1)));
    }
}

/// No two entries of `s` have the same key.
pub open spec fn keys_unique(s: Seq<(String, SetObject)>) -> bool {
    forall|i: int, j: int| 0 <= i < j < s.len() ==> (#[trigger] s[i]).0@ != (#[trigger] s[j]).0@
}

impl Database {
    /// Each key has one entry at most.
    pub open spec fn wf(&self) -> bool {
        keys_unique(self.store@)
    }

    /// An empty store for a master.
    pub fn new() -> (r: Database)
        ensures
            r@ == Map::<Seq<char>, (Seq<char>, Option<u64>)>::empty(),
            r.mode == Mode::Master,
            r.replicaof is None,
            r.wf(),
    {
        Database { store: Vec::new(), mode: Mode::Master, replicaof: None, origin: Instant::now() }
    }

    /// Marks the node as a replica of the master that `info` names.
    pub fn toggle_slave_mode(&mut self, info: Vec<String>)
        ensures
            final(self).mode == Mode::Slave,
            final(self).replicaof == Some(info),
            final(self)@ == old(self)@,
            final(self).store == old(self).store,
    {
        self.mode = Mode::Slave;
        self.replicaof = Some(info);
    }

    /// The store's clock: milliseconds since the store was made.
    pub fn now(&self) -> u64 {
        millis_since(&self.origin)
    }

    /// The index of the last entry for `key`, if any.
    fn find(&self, key: &String) -> (r: Option<usize>)
        ensures
            r matches Some(i) ==> {
                &&& i < self.store@.len()
                &&& self.store@[i as int].0@ == key@
                &&& forall|j: int| i < j < self.store@.len() ==> (#[trigger] self.store@[j]).0@ != key@
            },
            r is None ==> forall|j: int|
                0 <= j < self.store@.len() ==> (#[trigger] self.store@[j]).0@ != key@,
    {
        let mut i = self.store.len();
        while i > 0
            invariant
                i <= self.store@.len(),
                forall|j: int| i <= j < self.store@.len() ==> (#[trigger] self.store@[j]).0@ != key@,
            decreases i,
        {
            i = i - 1;
            if self.store[i].0 == *key {
                return Some(i);
            }
        }
        None
    }

    /// Stores `value` under `key`, written at `now`, expiring `ttl` milliseconds later
    /// when a `ttl` is given. Returns the entry that was there before, if any.
    pub fn set_at(&mut self, key: &str, value: &str, ttl: Option<u64>, now: u64) -> (r: Option<SetObject>)
        ensures
            final(self)@ == old(self)@.insert(key@, (value@, expiry(ttl, now))),
            r is Some <==> old(self)@.contains_key(key@),
            r matches Some(o) ==> entry_view(o) == old(self)@[key@],
            final(self).mode == old(self).mode,
            final(self).replicaof == old(self).replicaof,
            old(self).wf() ==> final(self).wf(),
    {
        let expires_at: Option<u64> = match ttl {
            Some(ms) => Some(
                if ms > u64::MAX - now {
                    u64::MAX
                } else {
                    now + ms
                },
            ),
            None => None,
        };
        let key_text = key.to_owned();
        let entry = (key.to_owned(), SetObject::new(value.to_owned(), expires_at));
        let ghost old_store = self.store@;
        match self.find(&key_text) {
            Some(i) => {
                let (_, previous) = self.store.remove(i);
                proof {
                    lemma_store_found(old_store, i as int, key@);
                    lemma_store_update(old_store, i as int, entry);
                }
                self.store.insert(i, entry);
                assert(self.store@ =~= old_store.update(i as int, entry));
                assert(keys_unique(old_store) ==> keys_unique(self.store@)) by {
                    if keys_unique(old_store) {
                        assert forall|a: int, b: int| 0 <= a < b < self.store@.len() implies (
                        #[trigger] self.store@[a]).0@ != (#[trigger] self.store@[b]).0@ by {
                            assert(old_store[a].0@ != old_store[b].0@);
                        }
                    }
                }
                Some(previous)
            },
            None => {
                proof {
                    lemma_store_absent(old_store, key@);
                }
                self.store.push(entry);
                assert(self.store@.drop_last() =~= old_store);
                assert(keys_unique(old_store) ==> keys_unique(self.store@)) by {
                    if keys_unique(old_store) {
                        assert forall|a: int, b: int| 0 <= a < b < self.store@.len() implies (
                        #[trigger] self.store@[a]).0@ != (#[trigger] self.store@[b]).0@ by {
                            if b == old_store.len() {
                                assert(old_store[a].0@ != key@);
                            } else {
                                assert(old_store[a].0@ != old_store[b].0@);
                            }
                        }
                    }
                }
                None
            },
        }
    }

    /// Stores `value` under `key` now, expiring `ttl` milliseconds from now when a
    /// `ttl` is given. Returns the entry that was there before, if any.
    pub fn set(&mut self, key: &str, value: &str, ttl: Option<u64>) -> (r: Option<SetObject>)
        ensures
            final(self)@ == old(self)@.insert(key@, (value@, final(self)@[key@].1)),
            ttl is None <==> final(self)@[key@].1 is None,
            ttl matches Some(ms) ==> final(self)@[key@].1 matches Some(t) && t >= ms,
            r is Some <==> old(self)@.contains_key(key@),
            r matches Some(o) ==> entry_view(o) == old(self)@[key@],
            final(self).mode == old(self).mode,
            final(self).replicaof == old(self).replicaof,
            old(self).wf() ==> final(self).wf(),
    {
        let now = self.now();
        self.set_at(key, value, ttl, now)
    }

    /// The entry for `key` if it is present and has not expired at `now`.
    pub fn get_at(&self, key: &str, now: u64) -> (r: Option<SetObject>)
        ensures
            r is Some <==> is_live(self@, key@, now),
            r matches Some(o) ==> entry_view(o) == self@[key@],
    {
        let key_text = key.to_owned();
        match self.find(&key_text) {
            Some(i) => {
                proof {
                    lemma_store_found(self.store@, i as int, key@);
                }
                let found = &self.store[i].1;
                match found.duration {
                    Some(t) => if now >= t {
                        None
                    } else {
                        Some(found.duplicate())
                    },
                    None => Some(found.duplicate()),
                }
            },
            None => {
                proof {
                    lemma_store_absent(self.store@, key@);
                }
                None
            },
        }
    }

    /// The entry for `key` if it is present and has not expired by the store's clock.
    pub fn get(&self, key: &str) -> (r: Option<SetObject>)
        ensures
            r matches Some(o) ==> self@.contains_key(key@) && entry_view(o) == self@[key@],
            !self@.contains_key(key@) ==> r is None,
            self@.contains_key(key@) && self@[key@].1 is None ==> r is Some,
    {
        let now = self.now();
        self.get_at(key, now)
    }
}

impl Default for Database {
    fn default() -> (r: Self)
        ensures
            r@ == Map::<Seq<char>, (Seq<char>, Option<u64>)>::empty(),
            r.mode == Mode::Master,
            r.wf(),
    {
        Self::new()
    }
}

/// A key written at `t0` with a time-to-live of `ttl` milliseconds reads back
/// until `ttl` milliseconds have passed, and is absent from then on.
pub proof fn lemma_ttl(
    store: StoreModel,
    key: Seq<char>,
    value: Seq<char>,
    ttl: u64,
    t0: u64,
    t1: u64,
)
    requires
        t0 + ttl <= u64::MAX,
    ensures
        is_live(store.insert(key, (value, expiry(Some(ttl), t0))), key, t1) <==> t1 < t0 + ttl,
{
}

} // verus!
