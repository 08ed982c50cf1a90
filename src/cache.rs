use vstd::prelude::*;

use crate::answer::{copy_answer, Answer, AnswerView};

verus! {

/// What a cached answer is filed under: name in wire form, type and class.
pub type CacheKey = (Vec<u8>, u16, u16);

/// What a [`CacheKey`] holds.
pub open spec fn key_view(k: CacheKey) -> (Seq<u8>, u16, u16) {
    (k.0@, k.1, k.2)
}

struct Entry {
    key: CacheKey,
    answer: Answer,
    expires_at: u64,
}

/// What an entry holds: key, answer, and the instant it expires at.
pub struct EntryView {
    pub key: (Seq<u8>, u16, u16),
    pub answer: AnswerView,
    pub expires_at: u64,
}

impl View for Entry {
    type V = EntryView;

    closed spec fn view(&self) -> EntryView {
        EntryView { key: key_view(self.key), answer: self.answer@, expires_at: self.expires_at }
    }
}

/// The entry filed under `k`: the first one with that key.
pub open spec fn lookup(es: Seq<EntryView>, k: (Seq<u8>, u16, u16)) -> Option<EntryView>
    decreases es.len(),
{
    if es.len() == 0 {
        None
    } else if es[0].key == k {
        Some(es[0])
    } else {
        lookup(es.subrange(1, es.len() as int), k)
    }
}

/// No two of the entries share a key.
pub open spec fn keys_unique(es: Seq<EntryView>) -> bool {
    forall|i: int, j: int| 0 <= i < j < es.len() ==> es[i].key != es[j].key
}

/// A cache of answers that expire. Time is a count of milliseconds on a clock
/// the caller keeps; an entry is served only before the instant it expires at.
///
/// The entries are held in a `Vec`, one per key, rather than in a hash map: a
/// key holds a `Vec<u8>`, and for a map keyed so there is no specification
/// of `get` and `insert` that the proofs here could rest on.
pub struct Cache {
    entries: Vec<Entry>,
    default_ttl: u64,
}

impl Cache {
    /// The entries, oldest first.
    pub closed spec fn entries(&self) -> Seq<EntryView> {
        self.entries@.map_values(|e: Entry| e@)
    }

    /// The time to live given to entries inserted without one, in milliseconds.
    pub closed spec fn default_ttl(&self) -> u64 {
        self.default_ttl
    }

    /// No two entries share a key.
    pub open spec fn wf(&self) -> bool {
        keys_unique(self.entries())
    }

    /// An empty cache whose entries live `default_ttl` milliseconds unless told
    /// otherwise.
    pub fn new(default_ttl: u64) -> (c: Cache)
        ensures
            c.wf(),
            forall|k: (Seq<u8>, u16, u16)| lookup(c.entries(), k) is None,
            c.default_ttl() == default_ttl,
    {
        let c = Cache { entries: Vec::new(), default_ttl };
        assert forall|k: (Seq<u8>, u16, u16)| lookup(c.entries(), k) is None by {
            assert(c.entries().len() == 0);
        }
        c
    }
}

/// Whether two keys are equal.
fn same_key(a: &CacheKey, b: &CacheKey) -> (r: bool)
    ensures
        r == (key_view(*a) == key_view(*b)),
{
    if a.1 != b.1 || a.2 != b.2 || a.0.len() != b.0.len() {
        return false;
    }
    let mut i: usize = 0;
    while i < a.0.len()
        invariant
            a.0@.len() == b.0@.len(),
            i <= a.0@.len(),
            a.0@.subrange(0, i as int) == b.0@.subrange(0, i as int),
        decreases a.0@.len() - i,
    {
        if a.0[i] != b.0[i] {
            assert(a.0@[i as int] != b.0@[i as int]);
            return false;
        }
        i = i + 1;
        assert(a.0@.subrange(0, i as int) =~= b.0@.subrange(0, i as int));
    }
    assert(a.0@ =~= a.0@.subrange(0, i as int));
    assert(b.0@ =~= b.0@.subrange(0, i as int));
    true
}

/// The first entry filed under `k` is at index `i`.
proof fn lemma_lookup_at(es: Seq<EntryView>, k: (Seq<u8>, u16, u16), i: int)
    requires
        0 <= i < es.len(),
        es[i].key == k,
        forall|j: int| 0 <= j < i ==> es[j].key != k,
    ensures
        lookup(es, k) == Some(es[i]),
    decreases i,
{
    if i > 0 {
        let rest = es.subrange(1, es.len() as int);
        assert forall|j: int| 0 <= j < i - 1 implies rest[j].key != k by {
            assert(rest[j] == es[j + 1]);
        }
        lemma_lookup_at(rest, k, i - 1);
    }
}

/// No entry is filed under `k`.
proof fn lemma_lookup_none(es: Seq<EntryView>, k: (Seq<u8>, u16, u16))
    requires
        forall|j: int| 0 <= j < es.len() ==> es[j].key != k,
    ensures
        lookup(es, k) is None,
    decreases es.len(),
{
    if es.len() > 0 {
        let rest = es.subrange(1, es.len() as int);
        assert forall|j: int| 0 <= j < rest.len() implies rest[j].key != k by {
            assert(rest[j] == es[j + 1]);
        }
        lemma_lookup_none(rest, k);
    }
}

/// Replacing the first entry filed under `e.key`, at `i`, by `e` files `e` under
/// that key and leaves every other key as it was.
proof fn lemma_lookup_replace(es: Seq<EntryView>, i: int, e: EntryView, k: (Seq<u8>, u16, u16))
    requires
        0 <= i < es.len(),
        es[i].key == e.key,
        forall|j: int| 0 <= j < i ==> es[j].key != e.key,
    ensures
        lookup(es.update(i, e), k) == if k == e.key {
            Some(e)
        } else {
            lookup(es, k)
        },
    decreases i,
{
    let es2 = es.update(i, e);
    if k == e.key {
        lemma_lookup_at(es2, k, i);
    } else if i == 0 {
        assert(es2.subrange(1, es2.len() as int) =~= es.subrange(1, es.len() as int));
    } else {
        let rest = es.subrange(1, es.len() as int);
        assert(es2.subrange(1, es2.len() as int) =~= rest.update(i - 1, e));
        assert forall|j: int| 0 <= j < i - 1 implies rest[j].key != e.key by {
            assert(rest[j] == es[j + 1]);
        }
        lemma_lookup_replace(rest, i - 1, e, k);
    }
}

/// Appending `e`, whose key no entry has, files `e` under its key and leaves
/// every other key as it was.
proof fn lemma_lookup_push(es: Seq<EntryView>, e: EntryView, k: (Seq<u8>, u16, u16))
    requires
        forall|j: int| 0 <= j < es.len() ==> es[j].key != e.key,
    ensures
        lookup(es.push(e), k) == if k == e.key {
            Some(e)
        } else {
            lookup(es, k)
        },
    decreases es.len(),
{
    let es2 = es.push(e);
    if es.len() == 0 {
        assert(es2.subrange(1, es2.len() as int) =~= Seq::<EntryView>::empty());
        assert(es2[0] == e);
        assert(lookup(Seq::<EntryView>::empty(), k) is None);
    } else {
        let rest = es.subrange(1, es.len() as int);
        assert(es2.subrange(1, es2.len() as int) =~= rest.push(e));
        assert(es2[0] == es[0]);
        assert forall|j: int| 0 <= j < rest.len() implies rest[j].key != e.key by {
            assert(rest[j] == es[j + 1]);
        }
        lemma_lookup_push(rest, e, k);
    }
}

impl Cache {
    /// The answer filed under `key`, where it has not expired at `now`.
    pub fn get(&self, key: &CacheKey, now: u64) -> (r: Option<Answer>)
        requires
            self.wf(),
        ensures
            match lookup(self.entries(), key_view(*key)) {
                Some(e) => if now < e.expires_at {
                    r matches Some(a) && a@ == e.answer
                } else {
                    r is None
                },
                None => r is None,
            },
    {
        let mut i: usize = 0;
        while i < self.entries.len()
            invariant
                i <= self.entries@.len(),
                forall|j: int| 0 <= j < i ==> self.entries()[j].key != key_view(*key),
            decreases self.entries@.len() - i,
        {
            let e = &self.entries[i];
            assert(self.entries()[i as int] == e@);
            if same_key(&e.key, key) {
                proof {
                    lemma_lookup_at(self.entries(), key_view(*key), i as int);
                }
                if now < e.expires_at {
                    return Some(copy_answer(&e.answer));
                }
                return None;
            }
            i = i + 1;
        }
        proof {
            lemma_lookup_none(self.entries(), key_view(*key));
        }
        None
    }

    /// Files `answer` under `key`, replacing what was filed there. It expires
    /// `ttl` milliseconds after `now` (the cache's default where `ttl` is
    /// `None`), or at the end of the clock where that lies beyond it.
    pub fn insert(&mut self, key: CacheKey, answer: Answer, ttl: Option<u64>, now: u64)
        requires
            old(self).wf(),
        ensures
            final(self).wf(),
            final(self).default_ttl() == old(self).default_ttl(),
            forall|k: (Seq<u8>, u16, u16)|
                #![trigger lookup(final(self).entries(), k)]
                lookup(final(self).entries(), k) == if k == key_view(key) {
                    Some(
                        EntryView {
                            key: key_view(key),
                            answer: answer@,
                            expires_at: expiry(
                                now,
                                match ttl {
                                    Some(t) => t,
                                    None => old(self).default_ttl(),
                                },
                            ),
                        },
                    )
                } else {
                    lookup(old(self).entries(), k)
                },
    {
        let lifetime = match ttl {
            Some(t) => t,
            None => self.default_ttl,
        };
        let expires_at = if lifetime > u64::MAX - now {
            u64::MAX
        } else {
            now + lifetime
        };
        assert(expires_at == expiry(now, lifetime));
        let ghost old_entries = self.entries();
        let mut i: usize = 0;
        while i < self.entries.len()
            invariant
                i <= self.entries@.len(),
                self.entries() == old_entries,
                old_entries == old(self).entries(),
                keys_unique(old_entries),
                expires_at == expiry(now, lifetime),
                lifetime == match ttl {
                    Some(t) => t,
                    None => old(self).default_ttl(),
                },
                self.default_ttl == old(self).default_ttl,
                forall|j: int| 0 <= j < i ==> self.entries()[j].key != key_view(key),
            decreases self.entries@.len() - i,
        {
            assert(self.entries()[i as int] == self.entries@[i as int]@);
            if same_key(&self.entries[i].key, &key) {
                let entry = Entry { key, answer, expires_at };
                let ghost ev = entry@;
                self.entries.set(i, entry);
                assert(self.entries() =~= old_entries.update(i as int, ev));
                assert(keys_unique(self.entries())) by {
                    assert forall|a: int, b: int| 0 <= a < b < self.entries().len() implies
                        self.entries()[a].key != self.entries()[b].key by {
                        assert(old_entries[a].key != old_entries[b].key);
                    }
                }
                assert forall|k: (Seq<u8>, u16, u16)| #[trigger]
                    lookup(self.entries(), k) == if k == ev.key {
                        Some(ev)
                    } else {
                        lookup(old_entries, k)
                    } by {
                    lemma_lookup_replace(old_entries, i as int, ev, k);
                }
                return;
            }
            i = i + 1;
        }
        let entry = Entry { key, answer, expires_at };
        let ghost ev = entry@;
        self.entries.push(entry);
        assert(self.entries() =~= old_entries.push(ev));
        assert(keys_unique(self.entries())) by {
            assert forall|a: int, b: int| 0 <= a < b < self.entries().len() implies
                self.entries()[a].key != self.entries()[b].key by {
                if b < old_entries.len() {
                    assert(old_entries[a].key != old_entries[b].key);
                }
            }
        }
        assert forall|k: (Seq<u8>, u16, u16)| #[trigger]
            lookup(self.entries(), k) == if k == ev.key {
                Some(ev)
            } else {
                lookup(old_entries, k)
            } by {
            lemma_lookup_push(old_entries, ev, k);
        }
    }
}

/// The instant `ttl` milliseconds after `now`, or the end of the clock where that
/// lies beyond it.
pub open spec fn expiry(now: u64, ttl: u64) -> u64 {
    if now + ttl > u64::MAX {
        u64::MAX
    } else {
        (now + ttl) as u64
    }
}

} // verus!
