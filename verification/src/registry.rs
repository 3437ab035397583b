//! The table of live sessions that a connection manager keeps, keyed by
//! connection id, with a cap on how many may be open at once.
use vstd::prelude::*;

verus! {

/// Live sessions by connection id, at most `limit` of them.
pub struct SessionTable<T> {
    entries: Vec<(String, T)>,
    limit: usize,
}

/// The index of the entry with id `id`, if any.
pub open spec fn index_of<T>(es: Seq<(Seq<char>, T)>, id: Seq<char>) -> Option<int> {
    if exists|i: int| 0 <= i < es.len() && (#[trigger] es[i]).0 == id {
        Some(choose|i: int| 0 <= i < es.len() && (#[trigger] es[i]).0 == id)
    } else {
        None
    }
}

/// The value held for `id`, if any.
pub open spec fn lookup<T>(es: Seq<(Seq<char>, T)>, id: Seq<char>) -> Option<T> {
    match index_of(es, id) {
        Some(i) => Some(es[i].1),
        None => None,
    }
}

/// No two entries share an id.
pub open spec fn unique_ids<T>(es: Seq<(Seq<char>, T)>) -> bool {
    forall|i: int, j: int| 0 <= i < es.len() && 0 <= j < es.len() && i != j ==> (#[trigger] es[i]).0 != (#[trigger] es[j]).0
}

/// The entries after inserting `value` under `id` when there is room: the
/// value replaces the one held under `id`, or is added.
pub open spec fn inserted<T>(es: Seq<(Seq<char>, T)>, id: Seq<char>, value: T) -> Seq<(Seq<char>, T)> {
    match index_of(es, id) {
        Some(i) => es.update(i, (id, value)),
        None => es.push((id, value)),
    }
}

/// The entries after removing the one with id `id`.
pub open spec fn without<T>(es: Seq<(Seq<char>, T)>, id: Seq<char>) -> Seq<(Seq<char>, T)> {
    match index_of(es, id) {
        Some(i) => es.remove(i),
        None => es,
    }
}

impl<T> SessionTable<T> {
    /// The entries, by id.
    pub closed spec fn entries(&self) -> Seq<(Seq<char>, T)> {
        Seq::new(self.entries@.len(), |i: int| (self.entries@[i].0@, self.entries@[i].1))
    }

    /// How many sessions may be open at once.
    pub closed spec fn cap(&self) -> nat {
        self.limit as nat
    }

    /// Ids are unique and the cap is respected.
    pub open spec fn wf(&self) -> bool {
        unique_ids(self.entries()) && self.entries().len() <= self.cap()
    }

    /// An empty table for at most `limit` sessions.
    pub fn new(limit: usize) -> (t: Self)
        ensures
            t.wf(),
            t.entries() == Seq::<(Seq<char>, T)>::empty(),
            t.cap() == limit,
    {
        let t = SessionTable { entries: Vec::new(), limit };
        assert(t.entries() =~= Seq::<(Seq<char>, T)>::empty());
        t
    }

    /// Number of open sessions.
    pub fn len(&self) -> (n: usize)
        ensures
            n == self.entries().len(),
    {
        self.entries.len()
    }

    fn find(&self, id: &String) -> (r: Option<usize>)
        requires
            self.wf(),
        ensures
            match r {
                Some(i) => i < self.entries().len() && index_of(self.entries(), id@) == Some(i as int),
                None => index_of(self.entries(), id@) is None,
            },
    {
        let mut i: usize = 0;
        while i < self.entries.len()
            invariant
                self.wf(),
                i <= self.entries.len(),
                forall|j: int| 0 <= j < i ==> (#[trigger] self.entries())[j].0 != id@,
            decreases self.entries.len() - i,
        {
            if self.entries[i].0 == *id {
                proof {
                    let es = self.entries();
                    assert(es[i as int].0 == id@);
                    let k = choose|k: int| 0 <= k < es.len() && (#[trigger] es[k]).0 == id@;
                    if k != i {
                        assert(es[k].0 != es[i as int].0);
                    }
                }
                return Some(i);
            }
            i = i + 1;
        }
        None
    }

    /// The session held under `id`.
    pub fn get(&self, id: &str) -> (r: Option<&T>)
        requires
            self.wf(),
        ensures
            match lookup(self.entries(), id@) {
                Some(v) => r == Some(&v),
                None => r is None,
            },
    {
        let key = String::from_str(id);
        match self.find(&key) {
            Some(i) => Some(&self.entries[i].1),
            None => None,
        }
    }

    /// Add `value` under `id` if fewer than the cap are open; otherwise
    /// hand `value` back and leave the table as it was.
    pub fn try_insert(&mut self, id: String, value: T) -> (r: Result<(), T>)
        requires
            old(self).wf(),
        ensures
            final(self).wf(),
            final(self).cap() == old(self).cap(),
            old(self).entries().len() >= old(self).cap() ==> r == Err::<(), T>(value),
            old(self).entries().len() >= old(self).cap() ==> final(self).entries() == old(self).entries(),
            old(self).entries().len() < old(self).cap() ==> r is Ok,
            old(self).entries().len() < old(self).cap() ==> final(self).entries() == inserted(old(self).entries(), id@, value),
    {
        if self.entries.len() >= self.limit {
            return Err(value);
        }
        let ghost es = self.entries();
        match self.find(&id) {
            Some(i) => {
                let ghost idv = id@;
                self.entries.set(i, (id, value));
                proof {
                    assert(self.entries() =~= es.update(i as int, (idv, value)));
                }
            },
            None => {
                let ghost idv = id@;
                self.entries.push((id, value));
                proof {
                    assert(self.entries() =~= es.push((idv, value)));
                    assert forall|a: int, b: int|
                        0 <= a < self.entries().len() && 0 <= b < self.entries().len() && a != b
                        implies (#[trigger] self.entries()[a]).0 != (#[trigger] self.entries()[b]).0 by {
                        if a == es.len() as int && b < es.len() {
                            assert(es[b].0 != idv);
                        } else if b == es.len() as int && a < es.len() {
                            assert(es[a].0 != idv);
                        }
                    }
                }
            },
        }
        Ok(())
    }

    /// Remove and return the session held under `id`.
    pub fn remove(&mut self, id: &str) -> (r: Option<T>)
        requires
            old(self).wf(),
        ensures
            final(self).wf(),
            final(self).cap() == old(self).cap(),
            r == lookup(old(self).entries(), id@),
            final(self).entries() == without(old(self).entries(), id@),
    {
        let key = String::from_str(id);
        let ghost es = self.entries();
        match self.find(&key) {
            Some(i) => {
                let (_, value) = self.entries.remove(i);
                proof {
                    assert(self.entries() =~= es.remove(i as int));
                    assert forall|a: int, b: int|
                        0 <= a < self.entries().len() && 0 <= b < self.entries().len() && a != b
                        implies (#[trigger] self.entries()[a]).0 != (#[trigger] self.entries()[b]).0 by {
                        let a2 = if a < i { a } else { a + 1 };
                        let b2 = if b < i { b } else { b + 1 };
                        assert(self.entries()[a] == es[a2]);
                        assert(self.entries()[b] == es[b2]);
                    }
                }
                Some(value)
            },
            None => None,
        }
    }
}

/// After a session is inserted under `id`, looking `id` up gives it.
pub proof fn law_insert_then_lookup<T>(es: Seq<(Seq<char>, T)>, id: Seq<char>, value: T)
    requires
        unique_ids(es),
    ensures
        lookup(inserted(es, id, value), id) == Some(value),
        unique_ids(inserted(es, id, value)),
{
    let after = inserted(es, id, value);
    match index_of(es, id) {
        Some(i) => {
            assert(after[i].0 == id);
            let k = choose|k: int| 0 <= k < after.len() && (#[trigger] after[k]).0 == id;
            if k != i {
                assert(es[k].0 == id && es[i].0 == id);
            }
            assert forall|a: int, b: int|
                0 <= a < after.len() && 0 <= b < after.len() && a != b implies (#[trigger] after[a]).0
                    != (#[trigger] after[b]).0 by {
                assert(after[a].0 == es[a].0);
                assert(after[b].0 == es[b].0);
            }
        },
        None => {
            let n = es.len() as int;
            assert(after[n].0 == id);
            let k = choose|k: int| 0 <= k < after.len() && (#[trigger] after[k]).0 == id;
            if k != n {
                assert(after[k] == es[k]);
            }
            assert forall|a: int, b: int|
                0 <= a < after.len() && 0 <= b < after.len() && a != b implies (#[trigger] after[a]).0
                    != (#[trigger] after[b]).0 by {
                if a == n && b < n {
                    assert(after[b] == es[b]);
                } else if b == n && a < n {
                    assert(after[a] == es[a]);
                }
            }
        },
    }
}

/// After the session under `id` is removed, looking `id` up finds nothing,
/// and the other sessions stay.
pub proof fn law_remove_then_lookup<T>(es: Seq<(Seq<char>, T)>, id: Seq<char>, other: Seq<char>)
    requires
        unique_ids(es),
        other != id,
    ensures
        lookup(without(es, id), id) is None,
        lookup(without(es, id), other) == lookup(es, other),
{
    let after = without(es, id);
    match index_of(es, id) {
        Some(i) => {
            if exists|k: int| 0 <= k < after.len() && (#[trigger] after[k]).0 == id {
                let k = choose|k: int| 0 <= k < after.len() && (#[trigger] after[k]).0 == id;
                let k2 = if k < i { k } else { k + 1 };
                assert(after[k] == es[k2]);
            }
            if exists|k: int| 0 <= k < es.len() && (#[trigger] es[k]).0 == other {
                let k = choose|k: int| 0 <= k < es.len() && (#[trigger] es[k]).0 == other;
                assert(k != i);
                let k2 = if k < i { k } else { k - 1 };
                assert(after[k2] == es[k]);
                let m = choose|m: int| 0 <= m < after.len() && (#[trigger] after[m]).0 == other;
                let m2 = if m < i { m } else { m + 1 };
                assert(after[m] == es[m2]);
            } else {
                if exists|m: int| 0 <= m < after.len() && (#[trigger] after[m]).0 == other {
                    let m = choose|m: int| 0 <= m < after.len() && (#[trigger] after[m]).0 == other;
                    let m2 = if m < i { m } else { m + 1 };
                    assert(after[m] == es[m2]);
                }
            }
        },
        None => {},
    }
}

} // verus!
