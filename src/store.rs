//! The key-value store: string keys, string values, and an optional
//! expiry instant checked lazily when a key is read.
use crate::decimal::{parse_u64, u64_value};
use vstd::prelude::*;
use vstd::utf8::encode_utf8;

verus! {

/// The expiry instant `now + ttl`; none when that lies past the last
/// instant the clock can show, since such an expiry never comes.
pub open spec fn expiry_after(now: u64, ttl: u64) -> Option<u64> {
    if now + ttl > u64::MAX {
        None
    } else {
        Some((now + ttl) as u64)
    }
}

/// A stored value and the instant (in milliseconds on the caller's clock)
/// from which it reads as absent.
pub struct ValueWithExpiry {
    pub value: String,
    pub expires_at: Option<u64>,
}

impl ValueWithExpiry {
    /// An entry for `value` that expires `duration` milliseconds after
    /// `now`, or never without a duration. `None` when the duration is not
    /// an unsigned 64-bit decimal. An expiry past the clock's last instant
    /// is dropped: the entry then never expires.
    pub fn new(value: String, duration: Option<String>, now: u64) -> (r: Option<Self>)
        ensures
            match duration {
                None => r matches Some(e) && e.value == value && e.expires_at is None,
                Some(d) => match u64_value(encode_utf8(d@)) {
                    Some(ttl) => r matches Some(e) && e.value == value && e.expires_at
                        == expiry_after(now, ttl),
                    None => r is None,
                },
            },
    {
        match duration {
            None => Some(ValueWithExpiry { value, expires_at: None }),
            Some(d) => match parse_u64(d.as_str().as_bytes()) {
                Some(ttl) => {
                    let expires_at = if ttl > u64::MAX - now {
                        None
                    } else {
                        Some(now + ttl)
                    };
                    Some(ValueWithExpiry { value, expires_at })
                },
                None => None,
            },
        }
    }

    /// Whether the entry reads as absent at `now`: its expiry instant is not
    /// in the future.
    pub fn is_expired(&self, now: u64) -> (r: bool)
        ensures
            r == (self.expires_at matches Some(at) && at <= now),
    {
        match self.expires_at {
            Some(at) => at <= now,
            None => false,
        }
    }
}

/// What a key holds: its value and its expiry instant.
pub type Entry = (Seq<char>, Option<u64>);

/// Whether `e` reads as absent at `now`.
pub open spec fn expired(e: Entry, now: u64) -> bool {
    e.1 matches Some(at) && at <= now
}

/// What reading `key` at `now` gives in the mapping `m`.
pub open spec fn lookup(m: Map<Seq<char>, Entry>, key: Seq<char>, now: u64) -> Option<Seq<char>> {
    if m.contains_key(key) && !expired(m[key], now) {
        Some(m[key].0)
    } else {
        None
    }
}

/// The mapping from keys to entries. Every operation takes `&mut self` or
/// `&self` for its whole run, so a caller that shares the store behind one
/// lock sees each operation whole or not at all.
pub struct Store {
    entries: Vec<(String, ValueWithExpiry)>,
}

impl Store {
    /// No key appears twice.
    pub closed spec fn wf(&self) -> bool {
        forall|i: int, j: int|
            0 <= i < j < self.entries@.len() ==> (#[trigger] self.entries@[i]).0@
                != (#[trigger] self.entries@[j]).0@
    }

    pub closed spec fn view(&self) -> Map<Seq<char>, Entry> {
        Map::new(
            |k: Seq<char>| exists|i: int| 0 <= i < self.entries@.len() && self.entries@[i].0@ == k,
            |k: Seq<char>|
                {
                    let i = choose|i: int| 0 <= i < self.entries@.len() && self.entries@[i].0@ == k;
                    (self.entries@[i].1.value@, self.entries@[i].1.expires_at)
                },
        )
    }

    pub fn new() -> (r: Self)
        ensures
            r.wf(),
            r@ == Map::<Seq<char>, Entry>::empty(),
    {
        let r = Store { entries: Vec::new() };
        assert(r@ =~= Map::<Seq<char>, Entry>::empty());
        r
    }

    /// Where `key` stands, if it is there.
    fn position(&self, key: &String) -> (r: Option<usize>)
        requires
            self.wf(),
        ensures
            match r {
                Some(i) => i < self.entries@.len() && self.entries@[i as int].0@ == key@,
                None => !self@.contains_key(key@),
            },
    {
        let mut i: usize = 0;
        while i < self.entries.len()
            invariant
                i <= self.entries@.len(),
                forall|j: int| 0 <= j < i ==> (#[trigger] self.entries@[j]).0@ != key@,
            decreases self.entries@.len() - i,
        {
            if self.entries[i].0 == *key {
                return Some(i);
            }
            i = i + 1;
        }
        None
    }

    /// What `self@` says of the key at position `i`.
    proof fn lemma_view_at(&self, i: int)
        requires
            self.wf(),
            0 <= i < self.entries@.len(),
        ensures
            self@.contains_key(self.entries@[i].0@),
            self@[self.entries@[i].0@] == (self.entries@[i].1.value@, self.entries@[i].1.expires_at),
    {
        let k = self.entries@[i].0@;
        let j = choose|j: int| 0 <= j < self.entries@.len() && self.entries@[j].0@ == k;
        if j < i {
            assert(self.entries@[j].0@ != self.entries@[i].0@);
        } else if i < j {
            assert(self.entries@[i].0@ != self.entries@[j].0@);
        }
    }

    /// Stores `entry` under `key`, replacing what was there.
    pub fn set(&mut self, key: String, entry: ValueWithExpiry)
        requires
            old(self).wf(),
        ensures
            final(self).wf(),
            final(self)@ == old(self)@.insert(key@, (entry.value@, entry.expires_at)),
    {
        let ghost k = key@;
        let ghost e = (entry.value@, entry.expires_at);
        match self.position(&key) {
            Some(i) => {
                self.entries[i] = (key, entry);
                proof {
                    assert forall|a: int, b: int|
                        0 <= a < b < self.entries@.len() implies (#[trigger] self.entries@[a]).0@
                        != (#[trigger] self.entries@[b]).0@ by {
                        assert(a != i ==> self.entries@[a] == old(self).entries@[a]);
                        assert(b != i ==> self.entries@[b] == old(self).entries@[b]);
                    }
                    assert forall|q: Seq<char>|
                        #![trigger self@.contains_key(q)]
                        #![trigger old(self)@.insert(k, e).contains_key(q)]
                        self@.contains_key(q) == old(self)@.insert(k, e).contains_key(q) && (
                        self@.contains_key(q) ==> self@[q] == old(self)@.insert(k, e)[q]) by {
                        if self@.contains_key(q) {
                            let j = choose|j: int| 0 <= j < self.entries@.len() && self.entries@[j].0@ == q;
                            self.lemma_view_at(j);
                            if j != i {
                                assert(self.entries@[j] == old(self).entries@[j]);
                                old(self).lemma_view_at(j);
                            }
                        }
                        if old(self)@.contains_key(q) && q != k {
                            let j = choose|j: int| 0 <= j < old(self).entries@.len() && old(self).entries@[j].0@ == q;
                            assert(j != i);
                            assert(self.entries@[j] == old(self).entries@[j]);
                        }
                        if q == k {
                            self.lemma_view_at(i as int);
                        }
                    }
                    assert(self@ =~= old(self)@.insert(k, e));
                }
            },
            None => {
                self.entries.push((key, entry));
                proof {
                    let n = old(self).entries@.len() as int;
                    assert forall|a: int, b: int|
                        0 <= a < b < self.entries@.len() implies (#[trigger] self.entries@[a]).0@
                        != (#[trigger] self.entries@[b]).0@ by {
                        assert(self.entries@[a] == old(self).entries@[a]);
                        if b < n {
                            assert(self.entries@[b] == old(self).entries@[b]);
                        } else {
                            assert(!(exists|j: int| 0 <= j < n && old(self).entries@[j].0@ == k));
                        }
                    }
                    assert forall|q: Seq<char>|
                        #![trigger self@.contains_key(q)]
                        #![trigger old(self)@.insert(k, e).contains_key(q)]
                        self@.contains_key(q) == old(self)@.insert(k, e).contains_key(q) && (
                        self@.contains_key(q) ==> self@[q] == old(self)@.insert(k, e)[q]) by {
                        if self@.contains_key(q) {
                            let j = choose|j: int| 0 <= j < self.entries@.len() && self.entries@[j].0@ == q;
                            self.lemma_view_at(j);
                            if j != n {
                                assert(self.entries@[j] == old(self).entries@[j]);
                                old(self).lemma_view_at(j);
                            }
                        }
                        if old(self)@.contains_key(q) && q != k {
                            let j = choose|j: int| 0 <= j < old(self).entries@.len() && old(self).entries@[j].0@ == q;
                            assert(self.entries@[j] == old(self).entries@[j]);
                        }
                        if q == k {
                            self.lemma_view_at(n);
                        }
                    }
                    assert(self@ =~= old(self)@.insert(k, e));
                }
            },
        }
    }

    /// The value under `key` at `now`: absent when the key is not there or
    /// its entry has expired.
    pub fn get(&self, key: &String, now: u64) -> (r: Option<String>)
        requires
            self.wf(),
        ensures
            r matches Some(v) ==> lookup(self@, key@, now) == Some(v@),
            r is None ==> lookup(self@, key@, now) is None,
    {
        match self.position(key) {
            Some(i) => {
                proof {
                    self.lemma_view_at(i as int);
                }
                let e = &self.entries[i].1;
                if e.is_expired(now) {
                    None
                } else {
                    Some(e.value.clone())
                }
            },
            None => None,
        }
    }
}

/// Reading a key right after setting it gives the value set, as long as
/// its expiry instant, if it has one, is still in the future.
pub proof fn lemma_set_then_get(
    m: Map<Seq<char>, Entry>,
    key: Seq<char>,
    value: Seq<char>,
    expires_at: Option<u64>,
    now: u64,
)
    requires
        expires_at matches Some(at) ==> now < at,
    ensures
        lookup(m.insert(key, (value, expires_at)), key, now) == Some(value),
{
}

/// A value set with a ttl reads back at every instant before the ttl has
/// run out.
pub proof fn lemma_ttl_window(
    m: Map<Seq<char>, Entry>,
    key: Seq<char>,
    value: Seq<char>,
    now: u64,
    ttl: u64,
    later: u64,
)
    requires
        now <= later < now + ttl,
    ensures
        lookup(m.insert(key, (value, expiry_after(now, ttl))), key, later) == Some(value),
{
}

/// A key that was never set reads as absent.
pub proof fn lemma_get_unset(m: Map<Seq<char>, Entry>, key: Seq<char>, now: u64)
    requires
        !m.contains_key(key),
    ensures
        lookup(m, key, now) is None,
{
}

/// A value set with a ttl of zero reads as absent from the instant it was
/// set on.
pub proof fn lemma_zero_ttl_expires(
    m: Map<Seq<char>, Entry>,
    key: Seq<char>,
    value: Seq<char>,
    now: u64,
    later: u64,
)
    requires
        now <= later,
    ensures
        lookup(m.insert(key, (value, expiry_after(now, 0))), key, later) is None,
{
}

/// Setting two different keys keeps both, and the order of the two sets
/// does not matter.
pub proof fn lemma_sets_on_distinct_keys(
    m: Map<Seq<char>, Entry>,
    k1: Seq<char>,
    e1: Entry,
    k2: Seq<char>,
    e2: Entry,
)
    requires
        k1 != k2,
    ensures
        m.insert(k1, e1).insert(k2, e2) == m.insert(k2, e2).insert(k1, e1),
        m.insert(k1, e1).insert(k2, e2).contains_key(k1),
        m.insert(k1, e1).insert(k2, e2)[k1] == e1,
        m.insert(k1, e1).insert(k2, e2).contains_key(k2),
        m.insert(k1, e1).insert(k2, e2)[k2] == e2,
{
    assert(m.insert(k1, e1).insert(k2, e2) =~= m.insert(k2, e2).insert(k1, e1));
}

} // verus!
