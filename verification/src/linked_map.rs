//! A map from byte-string keys to values that is walked in a fixed order:
//! the storage shape behind the pallets' keyed maps. A new key goes to the
//! head, so a walk meets the most recently added key first.

use vstd::prelude::*;

verus! {

/// No key occurs twice among `s`'s entries.
pub open spec fn keys_unique<W>(s: Seq<(Seq<u8>, W)>) -> bool {
    forall|i: int, j: int|
        0 <= i < s.len() && 0 <= j < s.len() && i != j ==> #[trigger] s[i].0 != #[trigger] s[j].0
}

/// Some entry of `s` has key `k`.
pub open spec fn has_key<W>(s: Seq<(Seq<u8>, W)>, k: Seq<u8>) -> bool {
    exists|i: int| 0 <= i < s.len() && #[trigger] s[i].0 == k
}

/// The position of the entry with key `k` (meaningful when `has_key(s, k)`).
pub open spec fn key_index<W>(s: Seq<(Seq<u8>, W)>, k: Seq<u8>) -> int {
    choose|i: int| 0 <= i < s.len() && #[trigger] s[i].0 == k
}

/// The value stored under `k`, if any.
pub open spec fn lookup<W>(s: Seq<(Seq<u8>, W)>, k: Seq<u8>) -> Option<W> {
    if has_key(s, k) {
        Some(s[key_index(s, k)].1)
    } else {
        None
    }
}

/// The entries after storing `v` under `k`: an existing entry keeps its
/// position and gets the new value, a new key becomes the head.
pub open spec fn put<W>(s: Seq<(Seq<u8>, W)>, k: Seq<u8>, v: W) -> Seq<(Seq<u8>, W)> {
    if has_key(s, k) {
        s.update(key_index(s, k), (k, v))
    } else {
        seq![(k, v)] + s
    }
}

/// Storing `v` under `k` keeps the keys unique, makes `v` the value of `k`,
/// and leaves every other key's value as it was.
pub proof fn lemma_put<W>(s: Seq<(Seq<u8>, W)>, k: Seq<u8>, v: W)
    requires
        keys_unique(s),
    ensures
        keys_unique(put(s, k, v)),
        has_key(put(s, k, v), k),
        lookup(put(s, k, v), k) == Some(v),
        forall|k2: Seq<u8>| k2 != k ==> #[trigger] lookup(put(s, k, v), k2) == lookup(s, k2),
        forall|k2: Seq<u8>| #[trigger] has_key(put(s, k, v), k2) <==> has_key(s, k2) || k2 == k,
        put(s, k, v).len() == if has_key(s, k) { s.len() } else { s.len() + 1 },
{
    let t = put(s, k, v);
    if has_key(s, k) {
        let i = key_index(s, k);
        assert(t[i].0 == k);
        assert forall|a: int, b: int|
            0 <= a < t.len() && 0 <= b < t.len() && a != b implies #[trigger] t[a].0
            != #[trigger] t[b].0 by {
            assert(s[a].0 == t[a].0 && s[b].0 == t[b].0);
        }
        assert(has_key(t, k));
        let j = key_index(t, k);
        assert(j == i);
        assert forall|k2: Seq<u8>| k2 != k implies #[trigger] lookup(t, k2) == lookup(s, k2) by {
            if has_key(s, k2) {
                let a = key_index(s, k2);
                assert(t[a].0 == k2);
                assert(has_key(t, k2));
                let b = key_index(t, k2);
                assert(b == a);
            } else {
                if has_key(t, k2) {
                    let b = key_index(t, k2);
                    assert(s[b].0 == k2);
                }
            }
        }
        assert forall|k2: Seq<u8>| #[trigger] has_key(t, k2) <==> has_key(s, k2) || k2 == k by {
            if has_key(s, k2) {
                let a = key_index(s, k2);
                assert(t[a].0 == k2 || a == i);
            }
            if has_key(t, k2) {
                let b = key_index(t, k2);
                if b != i {
                    assert(s[b].0 == k2);
                }
            }
        }
    } else {
        assert(t[0].0 == k);
        assert forall|a: int| 0 <= a < s.len() implies #[trigger] t[a + 1] == s[a] by {}
        assert forall|a: int, b: int|
            0 <= a < t.len() && 0 <= b < t.len() && a != b implies #[trigger] t[a].0
            != #[trigger] t[b].0 by {
            if a > 0 && b > 0 {
                assert(s[a - 1].0 == t[a].0 && s[b - 1].0 == t[b].0);
            } else if a > 0 {
                assert(s[a - 1].0 == t[a].0);
            } else {
                assert(s[b - 1].0 == t[b].0);
            }
        }
        assert(has_key(t, k));
        let j = key_index(t, k);
        assert(j == 0);
        assert forall|k2: Seq<u8>| k2 != k implies #[trigger] lookup(t, k2) == lookup(s, k2) by {
            if has_key(s, k2) {
                let a = key_index(s, k2);
                assert(t[a + 1].0 == k2);
                assert(has_key(t, k2));
                let b = key_index(t, k2);
                assert(b == a + 1);
            } else {
                if has_key(t, k2) {
                    let b = key_index(t, k2);
                    assert(s[b - 1].0 == k2);
                }
            }
        }
        assert forall|k2: Seq<u8>| #[trigger] has_key(t, k2) <==> has_key(s, k2) || k2 == k by {
            if has_key(s, k2) {
                let a = key_index(s, k2);
                assert(t[a + 1].0 == k2);
            }
            if has_key(t, k2) {
                let b = key_index(t, k2);
                if b != 0 {
                    assert(s[b - 1].0 == k2);
                }
            }
        }
    }
}

/// Byte-wise equality of two byte strings.
pub fn bytes_eq(a: &[u8], b: &[u8]) -> (r: bool)
    ensures
        r == (a@ == b@),
{
    if a.len() != b.len() {
        return false;
    }
    let mut i: usize = 0;
    while i < a.len()
        invariant
            a@.len() == b@.len(),
            i <= a@.len(),
            forall|j: int| 0 <= j < i ==> a@[j] == b@[j],
        decreases a@.len() - i,
    {
        if a[i] != b[i] {
            return false;
        }
        i = i + 1;
    }
    assert(a@ =~= b@);
    true
}

/// Entries in walking order: newest key first.
pub struct LinkedMap<V> {
    entries: Vec<(Vec<u8>, V)>,
}

impl<V: View> View for LinkedMap<V> {
    type V = Seq<(Seq<u8>, V::V)>;

    closed spec fn view(&self) -> Seq<(Seq<u8>, V::V)> {
        self.entries@.map_values(|e: (Vec<u8>, V)| (e.0@, e.1@))
    }
}

impl<V: View> LinkedMap<V> {
    /// The map holds each key at most once.
    pub open spec fn wf(&self) -> bool {
        keys_unique(self@)
    }

    /// An empty map.
    pub fn new() -> (m: Self)
        ensures
            m@ == Seq::<(Seq<u8>, V::V)>::empty(),
            m.wf(),
    {
        let m = LinkedMap { entries: Vec::new() };
        assert(m@ =~= Seq::<(Seq<u8>, V::V)>::empty());
        m
    }

    /// The number of keys.
    pub fn len(&self) -> (n: usize)
        ensures
            n == self@.len(),
    {
        self.entries.len()
    }

    /// The key of the `i`-th entry.
    pub fn key_at(&self, i: usize) -> (k: &Vec<u8>)
        requires
            i < self@.len(),
        ensures
            k@ == self@[i as int].0,
    {
        &self.entries[i].0
    }

    /// The value of the `i`-th entry.
    pub fn value_at(&self, i: usize) -> (v: &V)
        requires
            i < self@.len(),
        ensures
            v@ == self@[i as int].1,
    {
        &self.entries[i].1
    }

    /// The position of `key`, if it is stored.
    pub fn position(&self, key: &[u8]) -> (r: Option<usize>)
        requires
            self.wf(),
        ensures
            match r {
                Some(i) => i < self@.len() && self@[i as int].0 == key@ && i == key_index(
                    self@,
                    key@,
                ) && has_key(self@, key@),
                None => !has_key(self@, key@),
            },
    {
        let mut i: usize = 0;
        while i < self.entries.len()
            invariant
                i <= self@.len(),
                self@.len() == self.entries@.len(),
                keys_unique(self@),
                forall|j: int| 0 <= j < i ==> self@[j].0 != key@,
            decreases self@.len() - i,
        {
            if bytes_eq(self.entries[i].0.as_slice(), key) {
                assert(self@[i as int].0 == key@);
                assert(has_key(self@, key@));
                let ghost j = key_index(self@, key@);
                assert(self@[j].0 == key@);
                assert(j == i);
                return Some(i);
            }
            i = i + 1;
        }
        assert forall|j: int| 0 <= j < self@.len() implies #[trigger] self@[j].0 != key@ by {}
        None
    }

    /// Stores `value` under `key`.
    pub fn put(&mut self, key: Vec<u8>, value: V)
        requires
            old(self).wf(),
        ensures
            final(self)@ == put(old(self)@, key@, value@),
            final(self).wf(),
    {
        proof {
            lemma_put(self@, key@, value@);
        }
        match self.position(key.as_slice()) {
            Some(i) => {
                let ghost kv = key@;
                let ghost vv = value@;
                self.entries.set(i, (key, value));
                assert(self@ =~= put(old(self)@, kv, vv));
            },
            None => {
                let ghost kv = key@;
                let ghost vv = value@;
                self.entries.insert(0, (key, value));
                assert(self@ =~= put(old(self)@, kv, vv));
            },
        }
    }
}

} // verus!
