//! An executor that keeps the store in memory: one value under each key
//! that was ever written.
use crate::protocol::{Executor, ExecutorError, KeyRead, KeyWrite};
use crate::timestamp::{Key, TxId};
use vstd::prelude::*;

verus! {

/// The store after `writes` are applied to `m` in their order: of the
/// writes to one key the last one stays.
pub open spec fn applied(m: Map<Key, u64>, writes: Seq<KeyWrite>) -> Map<Key, u64>
    decreases writes.len(),
{
    if writes.len() == 0 {
        m
    } else {
        applied(m, writes.drop_last()).insert(writes.last().key, writes.last().value)
    }
}

/// What a read of `key` finds in the store `m`.
pub open spec fn read_of(m: Map<Key, u64>, key: Key) -> KeyRead {
    KeyRead {
        key,
        value: if m.contains_key(key) {
            Some(m[key])
        } else {
            None
        },
    }
}

/// The value that `writes` leave under `key`: that of the last write to
/// it, if any is to it.
pub open spec fn last_write(writes: Seq<KeyWrite>, key: Key) -> Option<u64>
    decreases writes.len(),
{
    if writes.len() == 0 {
        None
    } else if writes.last().key == key {
        Some(writes.last().value)
    } else {
        last_write(writes.drop_last(), key)
    }
}

/// No lost writes: once writes are applied, a read of a key that they
/// wrote finds the value of the last write to it, and a read of any other
/// key finds what it found before.
pub proof fn lemma_no_lost_writes(m: Map<Key, u64>, writes: Seq<KeyWrite>, key: Key)
    ensures
        read_of(applied(m, writes), key) == match last_write(writes, key) {
            Some(v) => KeyRead { key, value: Some(v) },
            None => read_of(m, key),
        },
    decreases writes.len(),
{
    if writes.len() > 0 {
        lemma_no_lost_writes(m, writes.drop_last(), key);
    }
}

/// A store in memory.
#[derive(Debug)]
pub struct MemoryStore {
    entries: Vec<KeyWrite>,
}

spec fn first_at(s: Seq<KeyWrite>, key: Key, i: int) -> bool {
    0 <= i < s.len() && s[i].key == key && forall|j: int| 0 <= j < i ==> s[j].key != key
}

spec fn store_map(s: Seq<KeyWrite>) -> Map<Key, u64> {
    Map::new(
        |k: Key| exists|i: int| first_at(s, k, i),
        |k: Key| s[choose|i: int| first_at(s, k, i)].value,
    )
}

proof fn lemma_first(s: Seq<KeyWrite>, key: Key, i: int)
    requires
        first_at(s, key, i),
    ensures
        store_map(s).contains_key(key),
        store_map(s)[key] == s[i].value,
{
    let c = choose|c: int| first_at(s, key, c);
    assert(c == i) by {
        if c < i {
            assert(s[c].key != key);
        }
        if i < c {
            assert(s[i].key != key);
        }
    }
}

impl View for MemoryStore {
    type V = Map<Key, u64>;

    closed spec fn view(&self) -> Map<Key, u64> {
        store_map(self.entries@)
    }
}

impl MemoryStore {
    /// A store that holds nothing.
    pub fn new() -> (r: MemoryStore)
        ensures
            r@ == Map::<Key, u64>::empty(),
    {
        let r = MemoryStore { entries: Vec::new() };
        assert(store_map(r.entries@) =~= Map::<Key, u64>::empty());
        r
    }

    fn find(&self, key: Key) -> (r: Option<usize>)
        ensures
            match r {
                Some(i) => first_at(self.entries@, key, i as int),
                None => !self@.contains_key(key),
            },
    {
        let mut i: usize = 0;
        while i < self.entries.len()
            invariant
                i <= self.entries.len(),
                forall|j: int| 0 <= j < i ==> self.entries@[j].key != key,
            decreases self.entries.len() - i,
        {
            if self.entries[i].key == key {
                return Some(i);
            }
            i += 1;
        }
        assert(!self@.contains_key(key)) by {
            if exists|c: int| first_at(self.entries@, key, c) {
                let c = choose|c: int| first_at(self.entries@, key, c);
                assert(self.entries@[c].key != key);
            }
        }
        None
    }

    /// The value under `key`, if the key was ever written.
    pub fn get(&self, key: Key) -> (r: Option<u64>)
        ensures
            r == read_of(self@, key).value,
    {
        match self.find(key) {
            Some(i) => {
                proof {
                    lemma_first(self.entries@, key, i as int);
                }
                Some(self.entries[i].value)
            },
            None => None,
        }
    }

    /// Writes `value` under `key`.
    pub fn set(&mut self, key: Key, value: u64)
        ensures
            final(self)@ == old(self)@.insert(key, value),
    {
        let ghost before = self.entries@;
        match self.find(key) {
            Some(i) => {
                self.entries[i].value = value;
                proof {
                    let after = self.entries@;
                    assert(after =~= before.update(i as int, KeyWrite { key, value }));
                    assert forall|k: Key, c: int| first_at(before, k, c) <==> first_at(
                        after,
                        k,
                        c,
                    ) by {
                        if first_at(before, k, c) {
                            assert forall|j: int| 0 <= j < c implies after[j].key != k by {
                                assert(before[j].key != k);
                            }
                        }
                        if first_at(after, k, c) {
                            assert forall|j: int| 0 <= j < c implies before[j].key != k by {
                                assert(after[j].key != k);
                            }
                        }
                    }
                    assert forall|k: Key| #[trigger]
                        store_map(after).contains_key(k) implies store_map(after)[k]
                        == store_map(before).insert(key, value)[k] by {
                        let c = choose|c: int| first_at(after, k, c);
                        lemma_first(after, k, c);
                        assert(first_at(before, k, c));
                        lemma_first(before, k, c);
                        if k == key {
                            lemma_first(after, key, i as int);
                        }
                    }
                    lemma_first(before, key, i as int);
                    assert(store_map(after) =~= store_map(before).insert(key, value));
                }
            },
            None => {
                self.entries.push(KeyWrite { key, value });
                proof {
                    let after = self.entries@;
                    let n = before.len() as int;
                    assert(first_at(after, key, n)) by {
                        assert forall|j: int| 0 <= j < n implies after[j].key != key by {
                            lemma_none(before, key, j);
                        }
                    }
                    lemma_first(after, key, n);
                    assert forall|k: Key| #[trigger]
                        store_map(before).insert(key, value).contains_key(k) implies store_map(
                        after,
                    ).contains_key(k) && store_map(after)[k] == store_map(before).insert(
                        key,
                        value,
                    )[k] by {
                        if k != key {
                            let c = choose|c: int| first_at(before, k, c);
                            assert(first_at(after, k, c)) by {
                                assert forall|j: int| 0 <= j < c implies after[j].key != k by {
                                    assert(before[j].key != k);
                                }
                            }
                            lemma_first(after, k, c);
                            lemma_first(before, k, c);
                        }
                    }
                    assert forall|k: Key| #[trigger]
                        store_map(after).contains_key(k) implies store_map(before).insert(
                        key,
                        value,
                    ).contains_key(k) by {
                        if k != key {
                            let c = choose|c: int| first_at(after, k, c);
                            assert(c < n);
                            assert(first_at(before, k, c)) by {
                                assert forall|j: int| 0 <= j < c implies before[j].key != k by {
                                    assert(after[j].key != k);
                                }
                            }
                        }
                    }
                    assert(store_map(after) =~= store_map(before).insert(key, value));
                }
            },
        }
    }
}

/// Where no entry is the first for `key`, no entry has the key.
proof fn lemma_none(s: Seq<KeyWrite>, key: Key, j: int)
    requires
        !exists|c: int| first_at(s, key, c),
        0 <= j < s.len(),
    ensures
        s[j].key != key,
    decreases j,
{
    if s[j].key == key {
        if forall|i: int| 0 <= i < j ==> s[i].key != key {
            assert(first_at(s, key, j));
        } else {
            let i = choose|i: int| 0 <= i < j && s[i].key == key;
            lemma_none(s, key, i);
        }
    }
}

impl Executor for MemoryStore {
    /// Reads each of `keys`, in their order; never fails.
    fn read(&mut self, id: TxId, keys: &Vec<Key>) -> (r: Result<Vec<KeyRead>, ExecutorError>)
        ensures
            final(self)@ == old(self)@,
            r is Ok,
            r->Ok_0@ == keys@.map_values(|k: Key| read_of(old(self)@, k)),
    {
        let mut out: Vec<KeyRead> = Vec::new();
        let mut i: usize = 0;
        while i < keys.len()
            invariant
                i <= keys.len(),
                *self == *old(self),
                out@ == keys@.subrange(0, i as int).map_values(|k: Key| read_of(self@, k)),
            decreases keys.len() - i,
        {
            let value = self.get(keys[i]);
            out.push(KeyRead { key: keys[i], value });
            assert(out@ =~= keys@.subrange(0, i + 1).map_values(|k: Key| read_of(self@, k)));
            i += 1;
        }
        assert(keys@.subrange(0, i as int) =~= keys@);
        Ok(out)
    }

    /// Applies `writes` in their order; never fails.
    fn apply(&mut self, id: TxId, writes: &Vec<KeyWrite>) -> (r: Result<(), ExecutorError>)
        ensures
            final(self)@ == applied(old(self)@, writes@),
            r is Ok,
    {
        let mut i: usize = 0;
        while i < writes.len()
            invariant
                i <= writes.len(),
                self@ == applied(old(self)@, writes@.subrange(0, i as int)),
            decreases writes.len() - i,
        {
            assert(writes@.subrange(0, i + 1).drop_last() =~= writes@.subrange(0, i as int));
            self.set(writes[i].key, writes[i].value);
            i += 1;
        }
        assert(writes@.subrange(0, i as int) =~= writes@);
        Ok(())
    }
}

} // verus!
