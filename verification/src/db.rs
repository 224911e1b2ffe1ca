//! The in-memory key/value store that the commands read and write.
//!
//! Time is a number of milliseconds on a clock the caller keeps; an entry
//! written with an expiration can be read until that many milliseconds have
//! passed.
use vstd::prelude::*;
use vstd::slice::slice_to_vec;

verus! {

/// A length of time, in milliseconds.
#[derive(Debug, Clone, Copy, PartialEq, Eq)]
pub struct Expire {
    millis: u128,
}

impl Expire {
    #[verifier::type_invariant]
    spec fn bounded(self) -> bool {
        self.millis <= u64::MAX as u128 * 1000
    }

    /// The length of time in milliseconds.
    pub closed spec fn millis(&self) -> nat {
        self.millis as nat
    }

    /// `secs` seconds.
    pub fn from_secs(secs: u64) -> (e: Expire)
        ensures
            e.millis() == secs * 1000,
    {
        Expire { millis: (secs as u128) * 1000 }
    }

    /// `millis` milliseconds.
    pub fn from_millis(millis: u64) -> (e: Expire)
        ensures
            e.millis() == millis,
    {
        Expire { millis: millis as u128 }
    }

    /// The length of time in milliseconds.
    pub fn as_millis(&self) -> (m: u128)
        ensures
            m == self.millis(),
            m <= u64::MAX as u128 * 1000,
    {
        proof {
            use_type_invariant(self);
        }
        self.millis
    }
}

/// What a key holds: its value, and the time from which it is gone, if any.
pub struct Stored {
    pub value: Seq<u8>,
    pub expires_at: Option<nat>,
}

/// An entry that has not expired at `now`.
pub open spec fn is_live(s: Stored, now: nat) -> bool {
    match s.expires_at {
        Some(t) => now < t,
        None => true,
    }
}

/// What a read of `key` at `now` gives.
pub open spec fn lookup(m: Map<Seq<char>, Stored>, key: Seq<char>, now: nat) -> Option<Seq<u8>> {
    if m.contains_key(key) && is_live(m[key], now) {
        Some(m[key].value)
    } else {
        None
    }
}

/// When an entry written at `now` with `expire` is gone.
pub open spec fn deadline(now: nat, expire: Option<Expire>) -> Option<nat> {
    match expire {
        Some(e) => Some(now + e.millis()),
        None => None,
    }
}

struct Entry {
    key: String,
    value: Vec<u8>,
    expires_at: Option<u128>,
}

spec fn stored_of(e: Entry) -> Stored {
    Stored {
        value: e.value@,
        expires_at: match e.expires_at {
            Some(t) => Some(t as nat),
            None => None,
        },
    }
}

spec fn map_of(s: Seq<Entry>) -> Map<Seq<char>, Stored>
    decreases s.len(),
{
    if s.len() == 0 {
        Map::empty()
    } else {
        map_of(s.drop_last()).insert(s.last().key@, stored_of(s.last()))
    }
}

spec fn distinct_keys(s: Seq<Entry>) -> bool {
    forall|i: int, j: int| 0 <= i < j < s.len() ==> s[i].key@ != s[j].key@
}

/// With distinct keys, the map holds exactly the entries' keys, each with
/// what its entry stores.
proof fn lemma_map_of(s: Seq<Entry>)
    requires
        distinct_keys(s),
    ensures
        forall|i: int|
            0 <= i < s.len() ==> #[trigger] map_of(s).contains_key(s[i].key@) && map_of(s)[s[i].key@]
                == stored_of(s[i]),
        forall|k: Seq<char>|
            #[trigger] map_of(s).contains_key(k) ==> exists|i: int|
                0 <= i < s.len() && #[trigger] s[i].key@ == k,
    decreases s.len(),
{
    if s.len() > 0 {
        let t = s.drop_last();
        assert(distinct_keys(t));
        lemma_map_of(t);
        assert forall|i: int| 0 <= i < s.len() implies #[trigger] map_of(s).contains_key(s[i].key@)
            && map_of(s)[s[i].key@] == stored_of(s[i]) by {
            if i < s.len() - 1 {
                assert(t[i] == s[i]);
                assert(s[i].key@ != s.last().key@);
            }
        }
        assert forall|k: Seq<char>| #[trigger] map_of(s).contains_key(k) implies exists|i: int|
            0 <= i < s.len() && #[trigger] s[i].key@ == k by {
            if k == s.last().key@ {
                assert(s[s.len() - 1].key@ == k);
            } else {
                let i = choose|i: int| 0 <= i < t.len() && #[trigger] t[i].key@ == k;
                assert(s[i].key@ == k);
            }
        }
    }
}

/// A key/value store.
pub struct Db {
    entries: Vec<Entry>,
}

impl Db {
    #[verifier::type_invariant]
    spec fn keys_distinct(self) -> bool {
        distinct_keys(self.entries@)
    }

    /// What the store holds, by key.
    pub closed spec fn contents(&self) -> Map<Seq<char>, Stored> {
        map_of(self.entries@)
    }

    /// An empty store.
    pub fn new() -> (db: Db)
        ensures
            db.contents() == Map::<Seq<char>, Stored>::empty(),
    {
        Db { entries: Vec::new() }
    }

    /// Where `key` stands in the entries, if it does.
    fn find(&self, key: &String) -> (r: Option<usize>)
        ensures
            self.contents().contains_key(key@) <==> r is Some,
            r matches Some(i) ==> i < self.entries@.len() && self.entries@[i as int].key@ == key@,
    {
        proof {
            use_type_invariant(self);
            lemma_map_of(self.entries@);
        }
        let mut i: usize = 0;
        while i < self.entries.len()
            invariant
                i <= self.entries@.len(),
                forall|j: int| 0 <= j < i ==> self.entries@[j].key@ != key@,
            decreases self.entries@.len() - i,
        {
            if self.entries[i].key == *key {
                proof {
                    use_type_invariant(self);
                    lemma_map_of(self.entries@);
                }
                return Some(i);
            }
            i = i + 1;
        }
        None
    }

    /// The value of `key` at time `now`: nothing when the key was never
    /// written or its entry has expired.
    pub fn get(&self, key: &String, now: u64) -> (r: Option<Vec<u8>>)
        ensures
            match lookup(self.contents(), key@, now as nat) {
                Some(v) => r is Some && r->Some_0@ == v,
                None => r is None,
            },
    {
        proof {
            use_type_invariant(self);
            lemma_map_of(self.entries@);
        }
        match self.find(key) {
            Some(i) => {
                let e = &self.entries[i];
                let live = match e.expires_at {
                    Some(t) => (now as u128) < t,
                    None => true,
                };
                if live {
                    Some(slice_to_vec(e.value.as_slice()))
                } else {
                    None
                }
            },
            None => None,
        }
    }

    /// Writes `value` under `key` at time `now`, replacing what the key
    /// held; with `expire`, the entry is gone once that much time has passed.
    pub fn set(&mut self, key: String, value: Vec<u8>, expire: Option<Expire>, now: u64)
        ensures
            final(self).contents() == old(self).contents().insert(
                key@,
                Stored { value: value@, expires_at: deadline(now as nat, expire) },
            ),
    {
        proof {
            use_type_invariant(&*self);
            lemma_map_of(self.entries@);
        }
        let expires_at = match expire {
            Some(e) => Some(now as u128 + e.as_millis()),
            None => None,
        };
        let ghost k = key@;
        let ghost s = Stored { value: value@, expires_at: deadline(now as nat, expire) };
        let entry = Entry { key, value, expires_at };
        assert(stored_of(entry) == s);
        match self.find(&entry.key) {
            Some(i) => {
                let ghost before = self.entries@;
                let mut entries = Vec::new();
                std::mem::swap(&mut entries, &mut self.entries);
                entries.set(i, entry);
                proof {
                    let after = entries@;
                    assert(distinct_keys(after));
                    lemma_map_of(after);
                    assert(map_of(after) =~= map_of(before).insert(k, s)) by {
                        assert forall|x: Seq<char>| #[trigger] map_of(after).contains_key(x)
                            <==> map_of(before).insert(k, s).contains_key(x) by {
                            if map_of(after).contains_key(x) {
                                let j = choose|j: int| 0 <= j < after.len() && #[trigger] after[j].key@ == x;
                                if j != i {
                                    assert(before[j].key@ == x);
                                }
                            }
                            if map_of(before).contains_key(x) {
                                let j = choose|j: int| 0 <= j < before.len() && #[trigger] before[j].key@ == x;
                                if j != i {
                                    assert(after[j].key@ == x);
                                } else {
                                    assert(after[i as int].key@ == x);
                                }
                            }
                            if x == k {
                                assert(after[i as int].key@ == x);
                            }
                        }
                        assert forall|x: Seq<char>| #[trigger] map_of(after).contains_key(x)
                            implies map_of(after)[x] == map_of(before).insert(k, s)[x] by {
                            let j = choose|j: int| 0 <= j < after.len() && #[trigger] after[j].key@ == x;
                            if j != i {
                                assert(before[j].key@ == x);
                            }
                        }
                    }
                }
                self.entries = entries;
            },
            None => {
                let ghost before = self.entries@;
                let mut entries = Vec::new();
                std::mem::swap(&mut entries, &mut self.entries);
                entries.push(entry);
                proof {
                    assert(entries@.drop_last() =~= before);
                    assert forall|j: int| 0 <= j < before.len() implies before[j].key@ != k by {
                        if before[j].key@ == k {
                            assert(map_of(before).contains_key(k));
                        }
                    }
                    assert(distinct_keys(entries@));
                }
                self.entries = entries;
            },
        }
    }
}

/// What a read gives back of a write: right after `key` is written with
/// `value` at time `now`, a read of `key` at any time `later` before the
/// entry's deadline gives `value`, and a read of any other key gives what it
/// gave before.
pub proof fn lemma_read_your_write(
    m: Map<Seq<char>, Stored>,
    key: Seq<char>,
    value: Seq<u8>,
    expire: Option<Expire>,
    now: nat,
    later: nat,
    other: Seq<char>,
)
    requires
        other != key,
    ensures
        ({
            let m2 = m.insert(key, Stored { value, expires_at: deadline(now, expire) });
            &&& (expire matches Some(e) ==> later < now + e.millis()) ==> lookup(m2, key, later)
                == Some(value)
            &&& (expire matches Some(e) && later >= now + e.millis()) ==> lookup(m2, key, later)
                is None
            &&& lookup(m2, other, later) == lookup(m, other, later)
        }),
{
}

} // verus!
