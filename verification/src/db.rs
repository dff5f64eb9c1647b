//! The shared store: string keys mapped to byte values with optional
//! expiration, behind a verified reader-writer lock so that every operation
//! is one atomic critical section.
use std::sync::Arc;
use vstd::prelude::*;
use vstd::rwlock::RwLock;
use vstd::rwlock::RwLockPredicate;

use crate::ascii::bytes_eq;
use crate::ascii::clone_bytes;

verus! {

/// A stored value plus its optional absolute expiry instant, in milliseconds.
#[derive(Debug, Clone)]
pub struct DbValue {
    pub value: Vec<u8>,
    pub expires_at: Option<u64>,
}

/// Mathematical model of a store entry.
pub struct EntryModel {
    pub value: Seq<u8>,
    pub expires_at: Option<u64>,
}

impl View for DbValue {
    type V = EntryModel;

    open spec fn view(&self) -> EntryModel {
        EntryModel { value: self.value@, expires_at: self.expires_at }
    }
}

/// An entry is expired at `now` when it has a deadline that has passed.
pub open spec fn expired(e: EntryModel, now: u64) -> bool {
    match e.expires_at {
        Some(t) => now >= t,
        None => false,
    }
}

pub open spec fn has_key(s: Seq<(Vec<u8>, DbValue)>, k: Seq<u8>) -> bool {
    exists|i: int| 0 <= i < s.len() && #[trigger] s[i].0@ == k
}

pub open spec fn idx_of(s: Seq<(Vec<u8>, DbValue)>, k: Seq<u8>) -> int {
    choose|i: int| 0 <= i < s.len() && #[trigger] s[i].0@ == k
}

/// The mapping that an association list denotes.
pub open spec fn as_map(s: Seq<(Vec<u8>, DbValue)>) -> Map<Seq<u8>, EntryModel> {
    Map::new(|k: Seq<u8>| has_key(s, k), |k: Seq<u8>| s[idx_of(s, k)].1@)
}

/// The in-memory store: an association list whose keys are distinct.
pub struct StoreInner {
    entries: Vec<(Vec<u8>, DbValue)>,
}

impl View for StoreInner {
    type V = Map<Seq<u8>, EntryModel>;

    closed spec fn view(&self) -> Map<Seq<u8>, EntryModel> {
        as_map(self.entries@)
    }
}

/// With distinct keys, the element at `i` is the one the map denotes.
proof fn lemma_key_at(s: Seq<(Vec<u8>, DbValue)>, i: int)
    requires
        forall|a: int, b: int| 0 <= a < b < s.len() ==> (#[trigger] s[a].0@) != (#[trigger] s[b].0@),
        0 <= i < s.len(),
    ensures
        has_key(s, s[i].0@),
        idx_of(s, s[i].0@) == i,
        as_map(s)[s[i].0@] == s[i].1@,
{
    assert(has_key(s, s[i].0@));
    let j = idx_of(s, s[i].0@);
    assert(0 <= j < s.len() && s[j].0@ == s[i].0@);
}

impl StoreInner {
    /// Keys are pairwise distinct, so the association list denotes a map.
    pub closed spec fn wf(&self) -> bool {
        forall|a: int, b: int|
            0 <= a < b < self.entries@.len() ==> (#[trigger] self.entries@[a].0@) != (
            #[trigger] self.entries@[b].0@)
    }

    pub fn new() -> (s: StoreInner)
        ensures
            s.wf(),
            s@ == Map::<Seq<u8>, EntryModel>::empty(),
    {
        let s = StoreInner { entries: Vec::new() };
        proof {
            assert(s@ =~= Map::<Seq<u8>, EntryModel>::empty());
        }
        s
    }

    /// Index of the entry holding `key`, if any.
    fn find(&self, key: &[u8]) -> (r: Option<usize>)
        requires
            self.wf(),
        ensures
            match r {
                Some(i) => i < self.entries@.len() && self.entries@[i as int].0@ == key@
                    && has_key(self.entries@, key@) && idx_of(self.entries@, key@) == i,
                None => !has_key(self.entries@, key@),
            },
    {
        let n: usize = self.entries.len();
        let mut i: usize = 0;
        while i < n
            invariant
                0 <= i <= n,
                n == self.entries@.len(),
                self.wf(),
                forall|j: int| 0 <= j < i ==> (#[trigger] self.entries@[j].0@) != key@,
            decreases n - i,
        {
            if bytes_eq(self.entries[i].0.as_slice(), key) {
                proof {
                    lemma_key_at(self.entries@, i as int);
                }
                return Some(i);
            }
            i = i + 1;
        }
        None
    }

    /// Insert or overwrite the entry for `key`.
    pub fn put(&mut self, key: Vec<u8>, val: DbValue)
        requires
            old(self).wf(),
        ensures
            final(self).wf(),
            final(self)@ == old(self)@.insert(key@, val@),
    {
        let ghost s0 = self.entries@;
        match self.find(key.as_slice()) {
            Some(i) => {
                self.entries.set(i, (key, val));
                proof {
                    let s1 = self.entries@;
                    assert forall|a: int, b: int| 0 <= a < b < s1.len() implies (
                    #[trigger] s1[a].0@) != (#[trigger] s1[b].0@) by {
                        assert(s0[a].0@ != s0[b].0@);
                    }
                    assert forall|k: Seq<u8>| #[trigger] has_key(s1, k) == (has_key(s0, k) || k
                        == key@) by {
                        if has_key(s1, k) {
                            let j = choose|j: int| 0 <= j < s1.len() && #[trigger] s1[j].0@ == k;
                            if j != i {
                                assert(s0[j].0@ == k);
                            }
                        }
                        if has_key(s0, k) {
                            let j = choose|j: int| 0 <= j < s0.len() && #[trigger] s0[j].0@ == k;
                            if j != i {
                                assert(s1[j].0@ == k);
                            } else {
                                assert(s1[i as int].0@ == key@ && k == key@);
                            }
                        }
                        if k == key@ {
                            assert(s1[i as int].0@ == k);
                        }
                    }
                    assert forall|k: Seq<u8>| has_key(s1, k) implies as_map(s1)[k] == as_map(
                        s0,
                    ).insert(key@, val@)[k] by {
                        let j = idx_of(s1, k);
                        assert(0 <= j < s1.len() && s1[j].0@ == k);
                        if k == key@ {
                            lemma_key_at(s1, i as int);
                        } else {
                            assert(j != i);
                            assert(s0[j].0@ == k);
                            lemma_key_at(s1, j);
                            lemma_key_at(s0, j);
                        }
                    }
                    assert(self@ =~= old(self)@.insert(key@, val@));
                }
            },
            None => {
                let ghost kv = (key@, val@);
                self.entries.push((key, val));
                proof {
                    let s1 = self.entries@;
                    let n = s0.len() as int;
                    assert forall|a: int, b: int| 0 <= a < b < s1.len() implies (
                    #[trigger] s1[a].0@) != (#[trigger] s1[b].0@) by {
                        if b < n {
                            assert(s0[a].0@ != s0[b].0@);
                        } else {
                            assert(s1[b].0@ == kv.0);
                            assert(s0[a].0@ == s1[a].0@);
                            assert(!has_key(s0, kv.0));
                        }
                    }
                    assert forall|k: Seq<u8>| #[trigger] has_key(s1, k) == (has_key(s0, k) || k
                        == kv.0) by {
                        if has_key(s1, k) {
                            let j = choose|j: int| 0 <= j < s1.len() && #[trigger] s1[j].0@ == k;
                            if j < n {
                                assert(s0[j].0@ == k);
                            }
                        }
                        if has_key(s0, k) {
                            let j = choose|j: int| 0 <= j < s0.len() && #[trigger] s0[j].0@ == k;
                            assert(s1[j].0@ == k);
                        }
                        if k == kv.0 {
                            assert(s1[n].0@ == k);
                        }
                    }
                    assert forall|k: Seq<u8>| has_key(s1, k) implies as_map(s1)[k] == as_map(
                        s0,
                    ).insert(kv.0, kv.1)[k] by {
                        let j = idx_of(s1, k);
                        assert(0 <= j < s1.len() && s1[j].0@ == k);
                        if k == kv.0 {
                            lemma_key_at(s1, n);
                        } else {
                            assert(j != n);
                            assert(s0[j].0@ == k);
                            lemma_key_at(s1, j);
                            lemma_key_at(s0, j);
                        }
                    }
                    assert(self@ =~= old(self)@.insert(kv.0, kv.1));
                }
            },
        }
    }

    /// Look `key` up at time `now`. An entry whose deadline has passed is
    /// removed in the same operation, and the lookup reports a miss.
    pub fn get_live(&mut self, key: &[u8], now: u64) -> (r: Option<Vec<u8>>)
        requires
            old(self).wf(),
        ensures
            final(self).wf(),
            !old(self)@.contains_key(key@) ==> r is None && final(self)@ == old(self)@,
            old(self)@.contains_key(key@) && expired(old(self)@[key@], now) ==> r is None
                && final(self)@ == old(self)@.remove(key@),
            old(self)@.contains_key(key@) && !expired(old(self)@[key@], now) ==> final(self)@
                == old(self)@ && (r matches Some(v) && v@ == old(self)@[key@].value),
    {
        let ghost s0 = self.entries@;
        match self.find(key) {
            None => None,
            Some(i) => {
                proof {
                    lemma_key_at(s0, i as int);
                }
                let is_expired: bool = match self.entries[i].1.expires_at {
                    Some(t) => now >= t,
                    None => false,
                };
                if is_expired {
                    let _ = self.entries.remove(i);
                    proof {
                        let s1 = self.entries@;
                        let n = s1.len() as int;
                        assert forall|a: int, b: int| 0 <= a < b < n implies (#[trigger] s1[a].0@)
                            != (#[trigger] s1[b].0@) by {
                            let a0: int = if a < i { a } else { a + 1 };
                            let b0: int = if b < i { b } else { b + 1 };
                            assert(s0[a0].0@ != s0[b0].0@);
                            assert(s1[a].0@ == s0[a0].0@ && s1[b].0@ == s0[b0].0@);
                        }
                        assert forall|k: Seq<u8>| #[trigger] has_key(s1, k) == (has_key(s0, k) && k
                            != key@) by {
                            if has_key(s1, k) {
                                let j = choose|j: int|
                                    0 <= j < s1.len() && #[trigger] s1[j].0@ == k;
                                let j0: int = if j < i { j } else { j + 1 };
                                assert(s0[j0].0@ == k);
                                assert(j0 != i);
                                assert(k != key@);
                            }
                            if has_key(s0, k) && k != key@ {
                                let j = choose|j: int|
                                    0 <= j < s0.len() && #[trigger] s0[j].0@ == k;
                                assert(j != i);
                                if j < i {
                                    assert(s1[j].0@ == k);
                                } else {
                                    assert(s1[j - 1].0@ == k);
                                }
                            }
                        }
                        assert forall|k: Seq<u8>| has_key(s1, k) implies as_map(s1)[k] == as_map(
                            s0,
                        ).remove(key@)[k] by {
                            let j = idx_of(s1, k);
                            assert(0 <= j < s1.len() && s1[j].0@ == k);
                            let j0: int = if j < i { j } else { j + 1 };
                            assert(s0[j0].0@ == k && s1[j].1@ == s0[j0].1@);
                            lemma_key_at(s1, j);
                            lemma_key_at(s0, j0);
                        }
                        assert(self@ =~= old(self)@.remove(key@));
                    }
                    None
                } else {
                    let v = clone_bytes(&self.entries[i].1.value);
                    Some(v)
                }
            },
        }
    }

    /// Whether an entry for `key` is present, without touching expiry.
    pub fn contains_key(&self, key: &[u8]) -> (r: bool)
        requires
            self.wf(),
        ensures
            r == self@.contains_key(key@),
    {
        match self.find(key) {
            Some(_) => true,
            None => false,
        }
    }
}

/// What a lookup returns when run against store state `m` at time `now`.
pub open spec fn get_result_matches(
    m: Map<Seq<u8>, EntryModel>,
    k: Seq<u8>,
    now: u64,
    r: Option<Vec<u8>>,
) -> bool {
    if m.contains_key(k) && !expired(m[k], now) {
        r matches Some(v) && v@ == m[k].value
    } else {
        r is None
    }
}

/// The lock invariant: every store state visible outside a critical section
/// is well formed.
pub struct StorePred {}

impl RwLockPredicate<StoreInner> for StorePred {
    open spec fn inv(self, v: StoreInner) -> bool {
        v.wf()
    }
}

/// A shared handle to the store. Cloning it yields another handle to the
/// same underlying map; all access runs under one exclusive lock section.
#[derive(Clone)]
pub struct Database {
    lock: Arc<RwLock<StoreInner, StorePred>>,
}

impl Database {
    pub fn new() -> Database {
        Database { lock: Arc::new(RwLock::new(StoreInner::new(), Ghost(StorePred {  }))) }
    }

    /// Run one whole command as a single atomic lock section at time `now`.
    /// Whatever store state the lock handed out, the reply matches it.
    pub fn run_at(&self, cmd: crate::commands::Command, now: u64) -> (r: Vec<u8>)
        ensures
            exists|m: Map<Seq<u8>, EntryModel>|
                r@ == (#[trigger] crate::commands::spec_execute(cmd@, m, now)).1,
    {
        let ghost c = cmd@;
        let (mut inner, handle) = self.lock.acquire_write();
        let ghost m0 = inner@;
        let r = cmd.execute_at(&mut inner, now);
        handle.release_write(inner);
        proof {
            assert(r@ == (crate::commands::spec_execute(c, m0, now)).1);
        }
        r
    }

    /// Run `Set` semantics atomically: insert or overwrite.
    pub fn put(&self, key: Vec<u8>, val: DbValue) {
        let (mut inner, handle) = self.lock.acquire_write();
        inner.put(key, val);
        handle.release_write(inner);
    }

    /// Run `Get` semantics atomically: look up, evicting a passed deadline.
    /// Whatever store state the lock handed out, the result matches it.
    pub fn get_live(&self, key: &[u8], now: u64) -> (r: Option<Vec<u8>>)
        ensures
            exists|m: Map<Seq<u8>, EntryModel>| #[trigger] get_result_matches(m, key@, now, r),
    {
        let (mut inner, handle) = self.lock.acquire_write();
        let ghost m0 = inner@;
        let r = inner.get_live(key, now);
        handle.release_write(inner);
        proof {
            assert(get_result_matches(m0, key@, now, r));
        }
        r
    }

    /// Whether an entry is currently present, without touching expiry.
    pub fn contains_key(&self, key: &[u8]) -> bool {
        let (inner, handle) = self.lock.acquire_write();
        let r = inner.contains_key(key);
        handle.release_write(inner);
        r
    }
}

} // verus!
