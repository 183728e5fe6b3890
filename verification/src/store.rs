//! The key-value store: a mapping from key to value-with-optional-expiry,
//! with lazy expiration enforced at read time.
//!
//! The store itself is single-threaded; the embedding program wraps one
//! shared instance in a mutual-exclusion primitive and holds the lock for
//! the duration of a single operation, never across I/O.

use vstd::prelude::*;

verus! {

/// One stored entry: the payload and, optionally, the absolute expiry
/// time in milliseconds.
#[derive(Debug)]
pub struct RespEntry {
    pub value: Vec<u8>,
    pub expiry: Option<u64>,
}

/// The mathematical abstraction of an entry.
pub ghost struct EntryVal {
    pub value: Seq<u8>,
    pub expiry: Option<u64>,
}

impl View for RespEntry {
    type V = EntryVal;

    open spec fn view(&self) -> EntryVal {
        EntryVal { value: self.value@, expiry: self.expiry }
    }
}

impl RespEntry {
    /// An entry holding `value`, expiring at `expiry` if given.
    pub fn new(value: Vec<u8>, expiry: Option<u64>) -> (r: Self)
        ensures
            r@ == (EntryVal { value: value@, expiry }),
    {
        RespEntry { value, expiry }
    }
}

/// Whether an entry is expired at time `now`: it carries an expiry
/// timestamp at or before `now`. Entries without a timestamp never expire.
pub open spec fn entry_expired(e: EntryVal, now: u64) -> bool {
    match e.expiry {
        Some(t) => t <= now,
        None => false,
    }
}

/// The association slots as a finite map; later slots shadow earlier
/// ones, though a well-formed store never has two slots with one key.
pub open spec fn slots_map(s: Seq<(Vec<u8>, RespEntry)>) -> Map<Seq<u8>, EntryVal>
    decreases s.len(),
{
    if s.len() == 0 {
        Map::empty()
    } else {
        slots_map(s.drop_last()).insert(s.last().0@, s.last().1@)
    }
}

/// The store: entry per key, at most one slot per key.
#[derive(Debug)]
pub struct Db {
    slots: Vec<(Vec<u8>, RespEntry)>,
}

impl View for Db {
    type V = Map<Seq<u8>, EntryVal>;

    closed spec fn view(&self) -> Map<Seq<u8>, EntryVal> {
        slots_map(self.slots@)
    }
}

/// A key of `s` is in the map, with the entry of its slot.
proof fn lemma_slots_map_index(s: Seq<(Vec<u8>, RespEntry)>, i: int)
    requires
        0 <= i < s.len(),
        forall|j: int, k: int|
            0 <= j < k < s.len() ==> (#[trigger] s[j]).0@ != (#[trigger] s[k]).0@,
    ensures
        slots_map(s).contains_key(s[i].0@),
        slots_map(s)[s[i].0@] == s[i].1@,
    decreases s.len(),
{
    if i < s.len() - 1 {
        assert(s.drop_last()[i] == s[i]);
        lemma_slots_map_index(s.drop_last(), i);
        assert(s[i].0@ != s[s.len() - 1].0@);
    }
}

/// A key under no slot of `s` is not in the map.
proof fn lemma_slots_map_absent(s: Seq<(Vec<u8>, RespEntry)>, key: Seq<u8>)
    requires
        forall|j: int| 0 <= j < s.len() ==> (#[trigger] s[j]).0@ != key,
    ensures
        !slots_map(s).contains_key(key),
    decreases s.len(),
{
    if s.len() > 0 {
        assert(forall|j: int|
            0 <= j < s.drop_last().len() ==> (#[trigger] s.drop_last()[j]).0@ != key);
        lemma_slots_map_absent(s.drop_last(), key);
        assert(s[s.len() - 1].0@ != key);
    }
}

/// Replacing the slot that holds `key` updates exactly that key.
proof fn lemma_slots_map_update(s: Seq<(Vec<u8>, RespEntry)>, i: int, p: (Vec<u8>, RespEntry))
    requires
        0 <= i < s.len(),
        p.0@ == s[i].0@,
        forall|j: int, k: int|
            0 <= j < k < s.len() ==> (#[trigger] s[j]).0@ != (#[trigger] s[k]).0@,
    ensures
        slots_map(s.update(i, p)) =~= slots_map(s).insert(p.0@, p.1@),
    decreases s.len(),
{
    let t = s.update(i, p);
    if i == s.len() - 1 {
        assert(t.drop_last() =~= s.drop_last());
        assert(t.last() == p);
    } else {
        assert(t.drop_last() =~= s.drop_last().update(i, p));
        assert(s.drop_last()[i] == s[i]);
        lemma_slots_map_update(s.drop_last(), i, p);
        assert(t.last() == s.last());
        assert(s[i].0@ != s[s.len() - 1].0@);
        assert(slots_map(t) =~= slots_map(s).insert(p.0@, p.1@));
    }
}

/// Removing the slot that holds `key` removes exactly that key.
proof fn lemma_slots_map_remove(s: Seq<(Vec<u8>, RespEntry)>, i: int)
    requires
        0 <= i < s.len(),
        forall|j: int, k: int|
            0 <= j < k < s.len() ==> (#[trigger] s[j]).0@ != (#[trigger] s[k]).0@,
    ensures
        slots_map(s.remove(i)) =~= slots_map(s).remove(s[i].0@),
    decreases s.len(),
{
    let t = s.remove(i);
    if i == s.len() - 1 {
        assert(t =~= s.drop_last());
        assert(forall|j: int|
            0 <= j < s.drop_last().len() ==> (#[trigger] s.drop_last()[j]).0@ != s[i].0@);
        lemma_slots_map_absent(s.drop_last(), s[i].0@);
        assert(slots_map(t) =~= slots_map(s).remove(s[i].0@));
    } else {
        assert(t.drop_last() =~= s.drop_last().remove(i));
        assert(s.drop_last()[i] == s[i]);
        lemma_slots_map_remove(s.drop_last(), i);
        assert(t.last() == s.last());
        assert(s[i].0@ != s[s.len() - 1].0@);
        assert(slots_map(t) =~= slots_map(s).remove(s[i].0@));
    }
}

/// Whether two byte vectors hold the same bytes.
fn bytes_eq(a: &Vec<u8>, b: &Vec<u8>) -> (r: bool)
    ensures
        r == (a@ == b@),
{
    if a.len() != b.len() {
        assert(a@ != b@);
        return false;
    }
    let n = a.len();
    let mut i: usize = 0;
    while i < n
        invariant
            i <= n,
            n == a@.len() == b@.len(),
            forall|j: int| 0 <= j < i ==> a@[j] == b@[j],
        decreases n - i,
    {
        if a[i] != b[i] {
            return false;
        }
        i = i + 1;
    }
    proof {
        assert(a@ =~= b@);
    }
    true
}

impl Db {
    /// No two slots hold the same key.
    pub closed spec fn wf(&self) -> bool {
        forall|j: int, k: int|
            0 <= j < k < self.slots@.len() ==> (#[trigger] self.slots@[j]).0@ != (
            #[trigger] self.slots@[k]).0@
    }

    /// An empty store.
    pub fn new() -> (r: Self)
        ensures
            r.wf(),
            r@ == Map::<Seq<u8>, EntryVal>::empty(),
    {
        Db { slots: Vec::new() }
    }

    /// The index of the slot holding `key`, if any.
    fn find_index(&self, key: &Vec<u8>) -> (r: Option<usize>)
        ensures
            match r {
                Some(i) => i < self.slots@.len() && self.slots@[i as int].0@ == key@,
                None => forall|j: int|
                    0 <= j < self.slots@.len() ==> (#[trigger] self.slots@[j]).0@ != key@,
            },
    {
        let n = self.slots.len();
        let mut i: usize = 0;
        while i < n
            invariant
                i <= n == self.slots@.len(),
                forall|j: int| 0 <= j < i ==> (#[trigger] self.slots@[j]).0@ != key@,
            decreases n - i,
        {
            if bytes_eq(&self.slots[i].0, key) {
                return Some(i);
            }
            i = i + 1;
        }
        None
    }

    /// Inserts or overwrites the entry for `key`, unconditionally.
    pub fn store(&mut self, key: Vec<u8>, val: Vec<u8>, expiry: Option<u64>)
        requires
            old(self).wf(),
        ensures
            final(self).wf(),
            final(self)@ == old(self)@.insert(key@, EntryVal { value: val@, expiry }),
    {
        let ghost s0 = self.slots@;
        match self.find_index(&key) {
            Some(i) => {
                let ghost kv = key@;
                let entry = RespEntry::new(val, expiry);
                self.slots.set(i, (key, entry));
                proof {
                    lemma_slots_map_update(s0, i as int, self.slots@[i as int]);
                    assert(final(self)@ =~= old(self)@.insert(
                        kv,
                        EntryVal { value: entry.value@, expiry },
                    ));
                }
            },
            None => {
                let ghost kv = key@;
                let entry = RespEntry::new(val, expiry);
                self.slots.push((key, entry));
                proof {
                    assert(self.slots@.drop_last() =~= s0);
                    assert(forall|j: int| 0 <= j < s0.len() ==> (#[trigger] s0[j]).0@ != kv);
                    assert forall|j: int, k: int|
                        0 <= j < k < self.slots@.len() implies (#[trigger] self.slots@[j]).0@
                        != (#[trigger] self.slots@[k]).0@ by {
                        if k < s0.len() {
                            assert(self.slots@[j] == s0[j] && self.slots@[k] == s0[k]);
                        } else {
                            assert(self.slots@[j] == s0[j]);
                            assert(self.slots@[k].0@ == kv);
                        }
                    }
                }
            },
        }
    }

    /// Looks `key` up at time `now`.
    ///
    /// An entry whose expiry is at or before `now` counts as absent: it
    /// is removed as a side effect and `None` is returned. This read is
    /// the only place expiration is enforced; an expired entry that is
    /// never read stays resident.
    pub fn fetch(&mut self, key: &Vec<u8>, now: u64) -> (r: Option<Vec<u8>>)
        requires
            old(self).wf(),
        ensures
            final(self).wf(),
            match r {
                Some(v) => old(self)@.contains_key(key@) && !entry_expired(
                    old(self)@[key@],
                    now,
                ) && v@ == old(self)@[key@].value && final(self)@ == old(self)@,
                None => if old(self)@.contains_key(key@) {
                    entry_expired(old(self)@[key@], now) && final(self)@ == old(self)@.remove(
                        key@,
                    )
                } else {
                    final(self)@ == old(self)@
                },
            },
    {
        let ghost s0 = self.slots@;
        match self.find_index(key) {
            None => {
                proof {
                    lemma_slots_map_absent(s0, key@);
                }
                None
            },
            Some(i) => {
                proof {
                    lemma_slots_map_index(s0, i as int);
                }
                let expired = match self.slots[i].1.expiry {
                    Some(t) => t <= now,
                    None => false,
                };
                if expired {
                    self.slots.remove(i);
                    proof {
                        lemma_slots_map_remove(s0, i as int);
                        assert forall|j: int, k: int|
                            0 <= j < k < self.slots@.len() implies (#[trigger] self.slots@[j]).0@
                            != (#[trigger] self.slots@[k]).0@ by {
                            let j0 = if j < i as int {
                                j
                            } else {
                                j + 1
                            };
                            let k0 = if k < i as int {
                                k
                            } else {
                                k + 1
                            };
                            assert(self.slots@[j] == s0[j0] && self.slots@[k] == s0[k0]);
                        }
                    }
                    None
                } else {
                    Some(vstd::slice::slice_to_vec(self.slots[i].1.value.as_slice()))
                }
            },
        }
    }

    /// Removes the entry for `key`, unconditionally.
    pub fn invalidate(&mut self, key: &Vec<u8>)
        requires
            old(self).wf(),
        ensures
            final(self).wf(),
            final(self)@ == old(self)@.remove(key@),
    {
        let ghost s0 = self.slots@;
        match self.find_index(key) {
            None => {
                proof {
                    lemma_slots_map_absent(s0, key@);
                    assert(final(self)@ =~= old(self)@.remove(key@));
                }
            },
            Some(i) => {
                self.slots.remove(i);
                proof {
                    lemma_slots_map_remove(s0, i as int);
                    assert forall|j: int, k: int|
                        0 <= j < k < self.slots@.len() implies (#[trigger] self.slots@[j]).0@
                        != (#[trigger] self.slots@[k]).0@ by {
                        let j0 = if j < i as int {
                            j
                        } else {
                            j + 1
                        };
                        let k0 = if k < i as int {
                            k
                        } else {
                            k + 1
                        };
                        assert(self.slots@[j] == s0[j0] && self.slots@[k] == s0[k0]);
                    }
                }
            },
        }
    }
}

} // verus!
