use vstd::prelude::*;

verus! {

/// Strict ordering of entries by key, then by per-key id.
pub open spec fn entry_lt<V>(a: (u64, usize, V), b: (u64, usize, V)) -> bool {
    a.0 < b.0 || (a.0 == b.0 && a.1 < b.1)
}

/// Entries strictly sorted by key and id, so no key repeats an id.
pub open spec fn sorted_entries<V>(s: Seq<(u64, usize, V)>) -> bool {
    forall|i: int, j: int| 0 <= i < j < s.len() ==> entry_lt(s[i], s[j])
}

/// Whether some entry with the given key and id is present.
pub open spec fn has_entry<V>(s: Seq<(u64, usize, V)>, key: u64, id: usize) -> bool {
    exists|j: int| 0 <= j < s.len() && s[j].0 == key && s[j].1 == id
}

/// An ordered keyed container that allows duplicate keys: each insertion under
/// a key gets an id that is unique for that key, and entries are kept sorted
/// by key and id.
pub struct BTreeMultiMap<V> {
    entries: Vec<(u64, usize, V)>,
}

impl<V> BTreeMultiMap<V> {
    /// The entries, each a key, its per-key id and the stored value.
    pub closed spec fn view(&self) -> Seq<(u64, usize, V)> {
        self.entries@
    }

    /// Entries are strictly sorted by key and id, so no key repeats an id.
    pub open spec fn wf(&self) -> bool {
        sorted_entries(self.view())
    }

    pub fn new() -> (r: Self)
        ensures
            r.wf(),
            r.view() == Seq::<(u64, usize, V)>::empty(),
    {
        BTreeMultiMap { entries: Vec::new() }
    }

    pub fn is_empty(&self) -> (r: bool)
        ensures
            r == (self.view().len() == 0),
    {
        self.entries.len() == 0
    }

    /// Adds a value under `key` and returns the id chosen for it: the smallest
    /// id not yet used under that key.
    pub fn insert(&mut self, key: u64, value: V) -> (id: usize)
        requires
            old(self).wf(),
        ensures
            final(self).wf(),
            exists|pos: int|
                0 <= pos <= old(self).view().len() && final(self).view() == old(
                    self,
                ).view().insert(pos, (key, id, value)),
            !has_entry(old(self).view(), key, id),
            forall|id2: usize| id2 < id ==> has_entry(old(self).view(), key, id2),
    {
        let ghost old_view = self.entries@;
        let mut idx: usize = 0;
        while idx < self.entries.len() && self.entries[idx].0 < key
            invariant
                self.entries@ == old_view,
                idx <= self.entries@.len(),
                forall|j: int| 0 <= j < idx ==> self.entries@[j].0 < key,
            decreases self.entries@.len() - idx,
        {
            idx += 1;
        }
        let ghost idx0 = idx as int;
        let mut id: usize = 0;
        while idx < self.entries.len() && self.entries[idx].0 == key && self.entries[idx].1 == id
            invariant
                old(self).wf(),
                self.entries@ == old_view,
                0 <= idx0 <= idx <= self.entries@.len(),
                id == idx - idx0,
                forall|j: int| 0 <= j < idx0 ==> self.entries@[j].0 < key,
                forall|j: int|
                    idx0 <= j < idx ==> self.entries@[j].0 == key && self.entries@[j].1 == j
                        - idx0,
            decreases self.entries@.len() - idx,
        {
            proof {
                assert(idx < self.entries@.len());
                assert(id == idx - idx0);
                assert(idx0 >= 0);
                assert(id < self.entries@.len());
            }
            idx += 1;
            id += 1;
        }
        proof {
            let ov = old(self).view();
            assert(ov == old_view);
            let n = idx as int;
            // At the stop position the key, when present, carries an id above `id`.
            if n < ov.len() && ov[n].0 == key {
                if n > idx0 {
                    assert(entry_lt(ov[n - 1], ov[n]));
                    assert(ov[n - 1].1 == id - 1);
                }
                assert(ov[n].1 != id);
                assert(ov[n].1 > id || ov[n].1 < id);
                if ov[n].1 < id {
                    let j2 = idx0 + ov[n].1 as int;
                    assert(ov[j2].1 == ov[n].1 && ov[j2].0 == key);
                    assert(entry_lt(ov[j2], ov[n]));
                    assert(false);
                }
            }
            assert forall|j: int| 0 <= j < ov.len() && ov[j].0 == key implies ov[j].1 != id by {
                if j < idx0 {
                } else if j < n {
                } else if j == n {
                } else {
                    assert(entry_lt(ov[n], ov[j]));
                    if ov[n].0 < key {
                        if n > idx0 {
                            assert(ov[n - 1].0 == key);
                            assert(entry_lt(ov[n - 1], ov[n]));
                            assert(false);
                        } else {
                            assert(false);
                        }
                    }
                    assert(ov[n].0 == key);
                    assert(ov[j].1 > ov[n].1);
                    assert(ov[n].1 > id);
                }
            }
            assert forall|id2: usize| id2 < id implies has_entry(old_view, key, id2) by {
                let j = idx0 + id2 as int;
                assert(old_view[j].0 == key && old_view[j].1 == id2);
            }
        }
        self.entries.insert(idx, (key, id, value));
        proof {
            let ov = old(self).view();
            assert(ov == old_view);
            let n = idx as int;
            let new_view = self.entries@;
            ov.insert_ensures(n, (key, id, value));
            assert forall|i: int, j: int|
                0 <= i < j < new_view.len() implies entry_lt(new_view[i], new_view[j]) by {
                if i < n && j < n {
                    assert(new_view[i] == ov[i] && new_view[j] == ov[j]);
                    assert(entry_lt(ov[i], ov[j]));
                } else if i < n && j > n {
                    assert(new_view[i] == ov[i] && new_view[j] == ov[j - 1]);
                    assert(entry_lt(ov[i], ov[j - 1]));
                } else if i > n && j > n {
                    assert(new_view[i] == ov[i - 1] && new_view[j] == ov[j - 1]);
                    assert(entry_lt(ov[i - 1], ov[j - 1]));
                } else if i == n {
                    // The new entry precedes everything at and after the stop
                    // position.
                    assert(new_view[i] == (key, id, value) && new_view[j] == ov[j - 1]);
                    assert(j - 1 >= n);
                    if ov[j - 1].0 == key {
                        assert(ov[j - 1].1 != id);
                        if ov[j - 1].1 < id {
                            let j2 = idx0 + ov[j - 1].1 as int;
                            assert(ov[j2].1 == ov[j - 1].1 && ov[j2].0 == key);
                            if j2 < j - 1 {
                                assert(entry_lt(ov[j2], ov[j - 1]));
                            } else if j2 > j - 1 {
                                assert(entry_lt(ov[j - 1], ov[j2]));
                            }
                            assert(false);
                        }
                    } else {
                        if ov[j - 1].0 < key {
                            if j - 1 > idx0 {
                                assert(entry_lt(ov[idx0], ov[j - 1]));
                                assert(ov[idx0].0 == key || idx0 == n);
                                if idx0 < n {
                                    assert(false);
                                } else {
                                    assert(ov[j - 1].0 >= key);
                                    assert(false);
                                }
                            } else if j - 1 == idx0 {
                                assert(false);
                            }
                        }
                    }
                } else {
                    // j == n: everything before the stop position precedes the
                    // new entry.
                    assert(new_view[i] == ov[i] && new_view[j] == (key, id, value));
                    if i < idx0 {
                    } else {
                        assert(ov[i].0 == key && ov[i].1 == i - idx0);
                    }
                }
            }
        }
        id
    }

    /// Removes the entry under `key` with the given id, returning its value;
    /// returns nothing, and changes nothing, when no such entry exists.
    pub fn remove(&mut self, key: u64, id: usize) -> (r: Option<V>)
        requires
            old(self).wf(),
        ensures
            final(self).wf(),
            r is Some <==> has_entry(old(self).view(), key, id),
            r is None ==> final(self).view() == old(self).view(),
            r is Some ==> exists|j: int|
                #![auto]
                0 <= j < old(self).view().len() && old(self).view()[j] == (
                    key,
                    id,
                    r.unwrap(),
                ) && final(self).view() == old(self).view().remove(j),
    {
        let mut idx: usize = 0;
        while idx < self.entries.len()
            invariant
                old(self).wf(),
                self.view() == old(self).view(),
                idx <= self.view().len(),
                forall|j: int|
                    0 <= j < idx ==> !(old(self).view()[j].0 == key && old(self).view()[j].1
                        == id),
            decreases self.view().len() - idx,
        {
            if self.entries[idx].0 == key && self.entries[idx].1 == id {
                let ghost old_view = old(self).view();
                proof {
                    assert(old_view[idx as int].0 == key && old_view[idx as int].1 == id);
                    assert(has_entry(old(self).view(), key, id));
                }
                let (_, _, v) = self.entries.remove(idx);
                proof {
                    let new_view = self.view();
                    old_view.remove_ensures(idx as int);
                    assert(new_view == old_view.remove(idx as int));
                    assert forall|i: int, j: int|
                        0 <= i < j < new_view.len() implies entry_lt(new_view[i], new_view[j]) by {
                        let ii: int = if i < idx as int {
                            i
                        } else {
                            i + 1
                        };
                        let jj: int = if j < idx as int {
                            j
                        } else {
                            j + 1
                        };
                        assert(new_view[i] == old_view[ii]);
                        assert(new_view[j] == old_view[jj]);
                        assert(entry_lt(old_view[ii], old_view[jj]));
                    }
                }
                return Some(v);
            }
            idx += 1;
        }
        proof {
            assert(!has_entry(old(self).view(), key, id));
        }
        None
    }

    /// The smallest key present, if any.
    pub fn first_key(&self) -> (r: Option<u64>)
        requires
            self.wf(),
        ensures
            r is None <==> self.view().len() == 0,
            r matches Some(k) ==> k == self.view()[0].0 && (forall|j: int|
                0 <= j < self.view().len() ==> k <= #[trigger] self.view()[j].0),
    {
        if self.entries.len() == 0 {
            None
        } else {
            proof {
                assert forall|j: int|
                    0 <= j < self.view().len() implies self.view()[0].0
                        <= #[trigger] self.view()[j].0 by {
                    if j > 0 {
                        assert(entry_lt(self.view()[0], self.view()[j]));
                    }
                }
            }
            Some(self.entries[0].0)
        }
    }

    /// The key and id of the entry with the smallest key (and, for that
    /// key, the smallest id), if any.
    pub fn first_key_id(&self) -> (r: Option<(u64, usize)>)
        requires
            self.wf(),
        ensures
            r is None <==> self.view().len() == 0,
            r matches Some((k, id)) ==> k == self.view()[0].0 && id == self.view()[0].1 && (
            forall|j: int| 0 <= j < self.view().len() ==> k <= #[trigger] self.view()[j].0),
    {
        if self.entries.len() == 0 {
            None
        } else {
            proof {
                assert forall|j: int|
                    0 <= j < self.view().len() implies self.view()[0].0
                        <= #[trigger] self.view()[j].0 by {
                    if j > 0 {
                        assert(entry_lt(self.view()[0], self.view()[j]));
                    }
                }
            }
            let e = &self.entries[0];
            Some((e.0, e.1))
        }
    }

    /// The entry with the smallest key (and, for that key, the smallest id),
    /// if any.
    pub fn first_entry(&self) -> (r: Option<((u64, usize), &V)>)
        requires
            self.wf(),
        ensures
            r is None <==> self.view().len() == 0,
            r matches Some(((k, id), v)) ==> (k, id, *v) == self.view()[0] && (forall|j: int|
                0 <= j < self.view().len() ==> k <= #[trigger] self.view()[j].0),
    {
        if self.entries.len() == 0 {
            None
        } else {
            proof {
                assert forall|j: int|
                    0 <= j < self.view().len() implies self.view()[0].0
                        <= #[trigger] self.view()[j].0 by {
                    if j > 0 {
                        assert(entry_lt(self.view()[0], self.view()[j]));
                    }
                }
            }
            let e = &self.entries[0];
            Some(((e.0, e.1), &e.2))
        }
    }
}

} // verus!
