use vstd::prelude::*;

use crate::task::{Task, TaskView};

verus! {

/// No two entries carry the same identifier.
pub open spec fn ids_unique(s: Seq<Task>) -> bool {
    forall|i: int, j: int|
        0 <= i < j < s.len() ==> (#[trigger] s[i])@.id != (#[trigger] s[j])@.id
}

/// The mapping from identifier to task value that a sequence of entries
/// holds; a later entry overrides an earlier one with the same identifier.
pub open spec fn map_of(s: Seq<Task>) -> Map<u128, TaskView>
    decreases s.len(),
{
    if s.len() == 0 {
        Map::empty()
    } else {
        map_of(s.drop_last()).insert(s.last()@.id, s.last()@)
    }
}

/// An identifier is in the mapping exactly when some entry carries it.
pub proof fn lemma_map_of_contains(s: Seq<Task>, k: u128)
    ensures
        map_of(s).contains_key(k) <==> exists|i: int| 0 <= i < s.len() && (#[trigger] s[i])@.id == k,
    decreases s.len(),
{
    if s.len() > 0 {
        lemma_map_of_contains(s.drop_last(), k);
        if s.last()@.id == k {
            assert(s[s.len() - 1]@.id == k);
        } else {
            if map_of(s).contains_key(k) {
                let i = choose|i: int| 0 <= i < s.drop_last().len() && (#[trigger] s.drop_last()[i])@.id == k;
                assert(s[i]@.id == k);
            }
            if exists|i: int| 0 <= i < s.len() && (#[trigger] s[i])@.id == k {
                let i = choose|i: int| 0 <= i < s.len() && (#[trigger] s[i])@.id == k;
                assert(s.drop_last()[i]@.id == k);
            }
        }
    }
}

/// Under unique identifiers, the mapping sends each entry's identifier to
/// that entry's value.
pub proof fn lemma_map_of_index(s: Seq<Task>, i: int)
    requires
        ids_unique(s),
        0 <= i < s.len(),
    ensures
        map_of(s).contains_key(s[i]@.id),
        map_of(s)[s[i]@.id] == s[i]@,
    decreases s.len(),
{
    lemma_map_of_contains(s, s[i]@.id);
    if i < s.len() - 1 {
        assert(s[i]@.id != s.last()@.id);
        assert(ids_unique(s.drop_last())) by {
            assert(forall|a: int, b: int|
                0 <= a < b < s.drop_last().len() ==> (#[trigger] s.drop_last()[a])@.id != (
                #[trigger] s.drop_last()[b])@.id) by {
                assert(forall|a: int| 0 <= a < s.drop_last().len() ==> s.drop_last()[a] == s[a]);
            }
        }
        lemma_map_of_index(s.drop_last(), i);
    }
}

/// Replacing the entry at one index, identifier kept, updates the mapping at
/// that identifier alone.
pub proof fn lemma_map_of_update(s: Seq<Task>, i: int, t: Task)
    requires
        ids_unique(s),
        0 <= i < s.len(),
        s[i]@.id == t@.id,
    ensures
        map_of(s.update(i, t)) =~= map_of(s).insert(t@.id, t@),
        ids_unique(s.update(i, t)),
    decreases s.len(),
{
    let su = s.update(i, t);
    assert(ids_unique(su)) by {
        assert(forall|a: int| 0 <= a < su.len() ==> (#[trigger] su[a])@.id == s[a]@.id);
    }
    if i == s.len() - 1 {
        assert(su.drop_last() =~= s.drop_last());
        assert(su.last() == t);
    } else {
        assert(ids_unique(s.drop_last())) by {
            assert(forall|a: int| 0 <= a < s.drop_last().len() ==> s.drop_last()[a] == s[a]);
        }
        assert(su.drop_last() =~= s.drop_last().update(i, t));
        lemma_map_of_update(s.drop_last(), i, t);
        assert(s[i]@.id != s.last()@.id);
        assert(su.last() == s.last());
    }
}

/// Appending an entry with a fresh identifier adds one binding.
pub proof fn lemma_map_of_push(s: Seq<Task>, t: Task)
    ensures
        map_of(s.push(t)) =~= map_of(s).insert(t@.id, t@),
{
    assert(s.push(t).drop_last() =~= s);
    assert(s.push(t).last() == t);
}

/// Removing the entry at one index, under unique identifiers, removes
/// exactly its binding.
pub proof fn lemma_map_of_remove(s: Seq<Task>, i: int)
    requires
        ids_unique(s),
        0 <= i < s.len(),
    ensures
        map_of(s.remove(i)) =~= map_of(s).remove(s[i]@.id),
        ids_unique(s.remove(i)),
    decreases s.len(),
{
    let sr = s.remove(i);
    assert(ids_unique(sr)) by {
        assert(forall|a: int|
            0 <= a < sr.len() ==> (#[trigger] sr[a])@.id == if a < i {
                s[a]@.id
            } else {
                s[a + 1]@.id
            });
    }
    if i == s.len() - 1 {
        assert(sr =~= s.drop_last());
        lemma_map_of_contains(s.drop_last(), s[i]@.id);
        assert(forall|a: int| 0 <= a < s.drop_last().len() ==> s.drop_last()[a] == s[a]);
        assert(!map_of(s.drop_last()).contains_key(s[i]@.id));
    } else {
        assert(ids_unique(s.drop_last())) by {
            assert(forall|a: int| 0 <= a < s.drop_last().len() ==> s.drop_last()[a] == s[a]);
        }
        assert(sr.drop_last() =~= s.drop_last().remove(i));
        lemma_map_of_remove(s.drop_last(), i);
        assert(sr.last() == s.last());
        assert(s[i]@.id != s.last()@.id);
    }
}

/// A vector of tasks addressed by identifier; at most one entry per
/// identifier. Both in-memory backends keep their snapshots in one of these.
pub struct TaskTable {
    pub entries: Vec<Task>,
}

impl View for TaskTable {
    type V = Map<u128, TaskView>;

    open spec fn view(&self) -> Map<u128, TaskView> {
        map_of(self.entries@)
    }
}

impl TaskTable {
    /// Identifiers are pairwise distinct.
    pub open spec fn wf(&self) -> bool {
        ids_unique(self.entries@)
    }

    pub fn new() -> (r: TaskTable)
        ensures
            r@ =~= Map::<u128, TaskView>::empty(),
            r.wf(),
    {
        TaskTable { entries: Vec::new() }
    }

    /// The index of the entry carrying the identifier, if any.
    fn find_index(&self, id: u128) -> (r: Option<usize>)
        ensures
            r matches Some(i) ==> i < self.entries@.len() && self.entries@[i as int]@.id == id,
            r is None ==> forall|j: int|
                0 <= j < self.entries@.len() ==> (#[trigger] self.entries@[j])@.id != id,
    {
        let mut i: usize = 0;
        while i < self.entries.len()
            invariant
                i <= self.entries@.len(),
                forall|j: int| 0 <= j < i ==> (#[trigger] self.entries@[j])@.id != id,
            decreases self.entries@.len() - i,
        {
            if self.entries[i].id() == id {
                return Some(i);
            }
            i = i + 1;
        }
        None
    }

    /// Stores the task under its identifier, replacing an entry that already
    /// carries it.
    pub fn insert(&mut self, t: Task)
        requires
            old(self).wf(),
        ensures
            final(self).wf(),
            final(self)@ == old(self)@.insert(t@.id, t@),
    {
        let ghost s = self.entries@;
        match self.find_index(t.id()) {
            Some(i) => {
                proof {
                    lemma_map_of_update(s, i as int, t);
                }
                self.entries.set(i, t);
            },
            None => {
                proof {
                    lemma_map_of_push(s, t);
                    assert(ids_unique(s.push(t))) by {
                        assert(forall|a: int| 0 <= a < s.len() ==> s.push(t)[a] == s[a]);
                        assert(s.push(t)[s.len() as int] == t);
                    }
                }
                self.entries.push(t);
            },
        }
    }

    /// The entry carrying the identifier, if any.
    pub fn lookup(&self, id: u128) -> (r: Option<&Task>)
        requires
            self.wf(),
        ensures
            r matches Some(t) ==> self@.contains_key(id) && t@ == self@[id],
            r is None ==> !self@.contains_key(id),
    {
        proof {
            lemma_map_of_contains(self.entries@, id);
        }
        match self.find_index(id) {
            Some(i) => {
                proof {
                    lemma_map_of_index(self.entries@, i as int);
                }
                Some(&self.entries[i])
            },
            None => None,
        }
    }

    /// Drops the entry carrying the identifier; absent identifiers change
    /// nothing.
    pub fn remove(&mut self, id: u128)
        requires
            old(self).wf(),
        ensures
            final(self).wf(),
            final(self)@ == old(self)@.remove(id),
    {
        let ghost s = self.entries@;
        match self.find_index(id) {
            Some(i) => {
                proof {
                    lemma_map_of_remove(s, i as int);
                }
                self.entries.remove(i);
            },
            None => {
                proof {
                    lemma_map_of_contains(s, id);
                    assert(map_of(s).remove(id) =~= map_of(s));
                }
            },
        }
    }

    /// A copy of every entry, one per identifier in the mapping.
    pub fn values(&self) -> (r: Vec<Task>)
        requires
            self.wf(),
        ensures
            forall|i: int|
                0 <= i < r@.len() ==> self@.contains_key((#[trigger] r@[i])@.id) && r@[i]@
                    == self@[r@[i]@.id],
            forall|id: u128| #[trigger]
                self@.contains_key(id) ==> exists|i: int| 0 <= i < r@.len() && (#[trigger] r@[i])@.id
                    == id,
            forall|i: int, j: int|
                0 <= i < j < r@.len() ==> (#[trigger] r@[i])@.id != (#[trigger] r@[j])@.id,
    {
        let mut r: Vec<Task> = Vec::new();
        let mut i: usize = 0;
        while i < self.entries.len()
            invariant
                self.wf(),
                i <= self.entries@.len(),
                r@.len() == i,
                forall|j: int| 0 <= j < i ==> (#[trigger] r@[j])@ == self.entries@[j]@,
            decreases self.entries@.len() - i,
        {
            r.push(self.entries[i].clone());
            i = i + 1;
        }
        proof {
            assert forall|j: int|
                0 <= j < r@.len() implies self@.contains_key((#[trigger] r@[j])@.id) && r@[j]@
                == self@[r@[j]@.id] by {
                lemma_map_of_index(self.entries@, j);
            }
            assert forall|id: u128| #[trigger]
                self@.contains_key(id) implies exists|i: int|
                0 <= i < r@.len() && (#[trigger] r@[i])@.id == id by {
                lemma_map_of_contains(self.entries@, id);
                let j = choose|j: int|
                    0 <= j < self.entries@.len() && (#[trigger] self.entries@[j])@.id == id;
                assert(r@[j]@.id == id);
            }
        }
        r
    }
}

} // verus!
