//! Extension storage: at most one value per type, keyed by the type's
//! identity, through which plugins share their own data.
use crate::index::{distinct_keys, find_key, key_position, lemma_key_position};
use std::any::TypeId;
use vstd::prelude::*;

verus! {

/// The map an association list with distinct keys stands for.
pub open spec fn entries_map<V>(s: Seq<(TypeId, V)>) -> Map<TypeId, V> {
    Map::new(|k: TypeId| key_position(s, k) is Some, |k: TypeId| s[key_position(s, k)->0].1)
}

/// Replacing the value at a key's position changes the map at that key only.
proof fn lemma_entries_update<V>(s: Seq<(TypeId, V)>, p: int, v: V)
    requires
        distinct_keys(s),
        0 <= p < s.len(),
    ensures
        distinct_keys(s.update(p, (s[p].0, v))),
        entries_map(s.update(p, (s[p].0, v))) =~= entries_map(s).insert(s[p].0, v),
{
    let s2 = s.update(p, (s[p].0, v));
    assert(distinct_keys(s2)) by {
        assert forall|i: int, j: int| 0 <= i < s2.len() && 0 <= j < s2.len() && i != j implies #[trigger] s2[i].0 != #[trigger] s2[j].0 by {
            assert(s2[i].0 == s[i].0 && s2[j].0 == s[j].0);
        }
    }
    assert forall|k: TypeId| #[trigger] key_position(s2, k) == key_position(s, k) by {
        lemma_key_position(s, k);
        lemma_key_position(s2, k);
        if key_position(s, k) is Some {
            let q = key_position(s, k)->0;
            assert(s2[q].0 == k);
        } else {
            assert forall|i: int| 0 <= i < s2.len() implies s2[i].0 != k by {
                assert(s2[i].0 == s[i].0);
            }
        }
    }
    lemma_key_position(s, s[p].0);
}

/// Appending an absent key adds it to the map.
proof fn lemma_entries_push<V>(s: Seq<(TypeId, V)>, k: TypeId, v: V)
    requires
        distinct_keys(s),
        key_position(s, k) is None,
    ensures
        distinct_keys(s.push((k, v))),
        entries_map(s.push((k, v))) =~= entries_map(s).insert(k, v),
{
    let s2 = s.push((k, v));
    lemma_key_position(s, k);
    assert(distinct_keys(s2)) by {
        assert forall|i: int, j: int| 0 <= i < s2.len() && 0 <= j < s2.len() && i != j implies #[trigger] s2[i].0 != #[trigger] s2[j].0 by {
            if i < s.len() && j < s.len() {
                assert(s2[i] == s[i] && s2[j] == s[j]);
            } else if i < s.len() {
                assert(s2[i] == s[i]);
            } else {
                assert(s2[j] == s[j]);
            }
        }
    }
    assert forall|u: TypeId| #[trigger] key_position(s2, u) == if u == k { Some(s.len() as int) } else { key_position(s, u) } by {
        lemma_key_position(s, u);
        lemma_key_position(s2, u);
        if u == k {
            assert(s2[s.len() as int].0 == k);
        } else if key_position(s, u) is Some {
            let q = key_position(s, u)->0;
            assert(s2[q].0 == u);
        } else {
            assert forall|i: int| 0 <= i < s2.len() implies s2[i].0 != u by {
                if i < s.len() {
                    assert(s2[i] == s[i]);
                }
            }
        }
    }
}

/// Removing the entry at a key's position removes the key from the map.
proof fn lemma_entries_remove<V>(s: Seq<(TypeId, V)>, p: int)
    requires
        distinct_keys(s),
        0 <= p < s.len(),
    ensures
        distinct_keys(s.remove(p)),
        entries_map(s.remove(p)) =~= entries_map(s).remove(s[p].0),
{
    let s2 = s.remove(p);
    let k = s[p].0;
    assert(distinct_keys(s2)) by {
        assert forall|i: int, j: int| 0 <= i < s2.len() && 0 <= j < s2.len() && i != j implies #[trigger] s2[i].0 != #[trigger] s2[j].0 by {
            let i0 = if i < p { i } else { i + 1 };
            let j0 = if j < p { j } else { j + 1 };
            assert(s2[i] == s[i0] && s2[j] == s[j0]);
        }
    }
    assert forall|u: TypeId| #[trigger] key_position(s2, u) == if u == k {
        None
    } else {
        match key_position(s, u) {
            Some(q) => Some(if q < p { q } else { q - 1 }),
            None => None,
        }
    } by {
        lemma_key_position(s, u);
        lemma_key_position(s2, u);
        if u == k {
            assert forall|i: int| 0 <= i < s2.len() implies s2[i].0 != u by {
                let i0 = if i < p { i } else { i + 1 };
                assert(s2[i] == s[i0]);
            }
        } else if key_position(s, u) is Some {
            let q = key_position(s, u)->0;
            assert(q != p);
            let q2 = if q < p { q } else { q - 1 };
            assert(s2[q2] == s[q]);
        } else {
            assert forall|i: int| 0 <= i < s2.len() implies s2[i].0 != u by {
                let i0 = if i < p { i } else { i + 1 };
                assert(s2[i] == s[i0]);
            }
        }
    }
    assert forall|u: TypeId| entries_map(s2).dom().contains(u) && #[trigger] entries_map(s).dom().contains(u) implies entries_map(s2)[u] == entries_map(s)[u] by {
        let q = key_position(s, u)->0;
        let q2 = if q < p { q } else { q - 1 };
        assert(s2[q2] == s[q]);
    }
}

/// At most one value per type.
pub struct Extensions<V> {
    entries: Vec<(TypeId, V)>,
}

impl<V> Extensions<V> {
    /// No type is stored twice.
    pub closed spec fn wf(&self) -> bool {
        distinct_keys(self.entries@)
    }
}

impl<V> View for Extensions<V> {
    type V = Map<TypeId, V>;

    closed spec fn view(&self) -> Map<TypeId, V> {
        entries_map(self.entries@)
    }
}

impl<V> Extensions<V> {
    /// An empty store.
    pub fn new() -> (r: Self)
        ensures
            r.wf(),
            r@ == Map::<TypeId, V>::empty(),
    {
        let r = Extensions { entries: Vec::new() };
        assert(r@ =~= Map::<TypeId, V>::empty());
        r
    }

    /// Stores `val` under `key`, returning the value it replaces.
    pub fn insert(&mut self, key: TypeId, val: V) -> (r: Option<V>)
        requires
            old(self).wf(),
        ensures
            final(self).wf(),
            final(self)@ == old(self)@.insert(key, val),
            r == (if old(self)@.dom().contains(key) { Some(old(self)@[key]) } else { None }),
    {
        let ghost before = self.entries@;
        match find_key(&self.entries, &key) {
            Some(p) => {
                proof {
                    lemma_key_position(before, key);
                    lemma_entries_update(before, p as int, val);
                }
                let (k, old_val) = self.entries.remove(p);
                self.entries.insert(p, (k, val));
                assert(self.entries@ =~= before.update(p as int, (before[p as int].0, val)));
                Some(old_val)
            },
            None => {
                proof {
                    lemma_entries_push(before, key, val);
                }
                self.entries.push((key, val));
                None
            },
        }
    }

    /// The value stored under `key`.
    pub fn get(&self, key: &TypeId) -> (r: Option<&V>)
        requires
            self.wf(),
        ensures
            r == (if self@.dom().contains(*key) { Some(&self@[*key]) } else { None }),
    {
        match find_key(&self.entries, key) {
            Some(p) => Some(&self.entries[p].1),
            None => None,
        }
    }

    /// Mutable access to the value stored under `key`.
    pub fn get_mut(&mut self, key: &TypeId) -> (r: Option<&mut V>)
        requires
            old(self).wf(),
        ensures
            final(self).wf(),
            match r {
                Some(x) => {
                    &&& old(self)@.dom().contains(*key)
                    &&& *x == old(self)@[*key]
                    &&& final(self)@ == old(self)@.insert(*key, *final(x))
                },
                None => !old(self)@.dom().contains(*key) && final(self)@ == old(self)@,
            },
    {
        match find_key(&self.entries, key) {
            Some(p) => {
                proof {
                    lemma_key_position(self.entries@, *key);
                }
                let ghost before = self.entries@;
                let slot = &mut self.entries[p].1;
                proof {
                    lemma_entries_update(before, p as int, *final(slot));
                }
                Some(slot)
            },
            None => None,
        }
    }

    /// Removes and returns the value stored under `key`.
    pub fn remove(&mut self, key: &TypeId) -> (r: Option<V>)
        requires
            old(self).wf(),
        ensures
            final(self).wf(),
            final(self)@ == old(self)@.remove(*key),
            r == (if old(self)@.dom().contains(*key) { Some(old(self)@[*key]) } else { None }),
    {
        let ghost before = self.entries@;
        match find_key(&self.entries, key) {
            Some(p) => {
                proof {
                    lemma_key_position(before, *key);
                    lemma_entries_remove(before, p as int);
                }
                let (_, v) = self.entries.remove(p);
                Some(v)
            },
            None => {
                assert(entries_map(before).remove(*key) =~= entries_map(before));
                None
            },
        }
    }

    /// Whether a value is stored under `key`.
    pub fn contains(&self, key: &TypeId) -> (r: bool)
        requires
            self.wf(),
        ensures
            r == self@.dom().contains(*key),
    {
        find_key(&self.entries, key).is_some()
    }
}

impl<V> Default for Extensions<V> {
    /// An empty store.
    fn default() -> (r: Self)
        ensures
            r.wf(),
            r@ == Map::<TypeId, V>::empty(),
    {
        Self::new()
    }
}

/// A value stored under a key is what a read of that key then gives, and
/// storing under one key leaves the other keys as they were.
pub proof fn law_read_after_insert<V>(m: Map<TypeId, V>, key: TypeId, val: V, other: TypeId)
    requires
        other != key,
    ensures
        m.insert(key, val).dom().contains(key),
        m.insert(key, val)[key] == val,
        m.insert(key, val).dom().contains(other) == m.dom().contains(other),
        m.dom().contains(other) ==> m.insert(key, val)[other] == m[other],
{
}

/// After a removal the key is absent, and inserting then removing a key that
/// was absent restores the store.
pub proof fn law_remove_after_insert<V>(m: Map<TypeId, V>, key: TypeId, val: V)
    ensures
        !m.remove(key).dom().contains(key),
        !m.dom().contains(key) ==> m.insert(key, val).remove(key) == m,
{
    assert(!m.dom().contains(key) ==> m.insert(key, val).remove(key) =~= m);
}

/// Writing through `get_mut` changes the value of that key only: a read of
/// the key then gives what was written, the keys present stay the same, and
/// every other key keeps its value.
pub proof fn law_write_through<V>(m: Map<TypeId, V>, key: TypeId, w: V, other: TypeId)
    requires
        m.dom().contains(key),
        other != key,
    ensures
        m.insert(key, w).dom() == m.dom(),
        m.insert(key, w)[key] == w,
        m.dom().contains(other) ==> m.insert(key, w)[other] == m[other],
{
    assert(m.insert(key, w).dom() =~= m.dom());
}

/// A removal hands back the value of the last insert of the key; a second
/// removal finds nothing and changes nothing; other keys keep their values.
pub proof fn law_remove_twice<V>(m: Map<TypeId, V>, key: TypeId, v: V, other: TypeId)
    requires
        other != key,
    ensures
        m.insert(key, v)[key] == v,
        !m.insert(key, v).remove(key).dom().contains(key),
        m.insert(key, v).remove(key).remove(key) == m.insert(key, v).remove(key),
        m.insert(key, v).remove(key).dom().contains(other) == m.dom().contains(other),
        m.dom().contains(other) ==> m.insert(key, v).remove(key)[other] == m[other],
{
    assert(m.insert(key, v).remove(key).remove(key) =~= m.insert(key, v).remove(key));
}

/// The store after a sequence of writes: `(k, Some(v))` is `insert(k, v)`,
/// `(k, None)` is `remove(k)` (the effect that their contracts state on
/// the view).
pub open spec fn after_writes<V>(m: Map<TypeId, V>, writes: Seq<(TypeId, Option<V>)>) -> Map<TypeId, V>
    decreases writes.len(),
{
    if writes.len() == 0 {
        m
    } else {
        let before = after_writes(m, writes.drop_last());
        match writes.last().1 {
            Some(v) => before.insert(writes.last().0, v),
            None => before.remove(writes.last().0),
        }
    }
}

/// Position of the last write to `key`, if any.
pub open spec fn last_write_to<V>(writes: Seq<(TypeId, Option<V>)>, key: TypeId) -> Option<int>
    decreases writes.len(),
{
    if writes.len() == 0 {
        None
    } else if writes.last().0 == key {
        Some(writes.len() - 1)
    } else {
        last_write_to(writes.drop_last(), key)
    }
}

/// After any sequence of inserts and removes, a read of a key gives the
/// value of the last insert of that key, whatever was written under other
/// keys since; when a remove of the key came last, the read finds nothing;
/// when nothing was written under the key, the read is as before.
pub proof fn law_last_write_wins<V>(m: Map<TypeId, V>, writes: Seq<(TypeId, Option<V>)>, key: TypeId)
    ensures
        match last_write_to(writes, key) {
            Some(i) => 0 <= i < writes.len() && writes[i].0 == key && match writes[i].1 {
                Some(v) => after_writes(m, writes).dom().contains(key) && after_writes(m, writes)[key] == v,
                None => !after_writes(m, writes).dom().contains(key),
            },
            None => after_writes(m, writes).dom().contains(key) == m.dom().contains(key) && (m.dom().contains(key)
                ==> after_writes(m, writes)[key] == m[key]),
        },
    decreases writes.len(),
{
    if writes.len() > 0 {
        law_last_write_wins(m, writes.drop_last(), key);
        if writes.last().0 != key {
            let pre = writes.drop_last();
            match last_write_to(pre, key) {
                Some(i) => {
                    assert(writes[i] == pre[i]);
                },
                None => {},
            }
        }
    }
}

} // verus!
