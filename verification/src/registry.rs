use vstd::prelude::*;
use vstd::string::StringExecFns;

verus! {

/// The mapping from handler name to handler that a sequence of
/// registrations builds; a later registration overrides an earlier one
/// under the same name.
pub open spec fn registrations_map<H>(s: Seq<(String, H)>) -> Map<Seq<char>, H>
    decreases s.len(),
{
    if s.len() == 0 {
        Map::empty()
    } else {
        registrations_map(s.drop_last()).insert(s.last().0@, s.last().1)
    }
}

/// When the entry at one index matches a name and no later entry does, the
/// mapping sends the name to that entry's handler.
proof fn lemma_registrations_last_match<H>(s: Seq<(String, H)>, i: int, k: Seq<char>)
    requires
        0 <= i < s.len(),
        s[i].0@ == k,
        forall|j: int| i < j < s.len() ==> (#[trigger] s[j]).0@ != k,
    ensures
        registrations_map(s).contains_key(k),
        registrations_map(s)[k] == s[i].1,
    decreases s.len(),
{
    if i < s.len() - 1 {
        assert(s.drop_last()[i] == s[i]);
        assert(forall|j: int| i < j < s.drop_last().len() ==> (#[trigger] s.drop_last()[j]).0@ != k);
        lemma_registrations_last_match(s.drop_last(), i, k);
        assert(s.last().0@ != k);
    }
}

/// When no entry matches a name, the mapping has no binding for it.
proof fn lemma_registrations_no_match<H>(s: Seq<(String, H)>, k: Seq<char>)
    requires
        forall|j: int| 0 <= j < s.len() ==> (#[trigger] s[j]).0@ != k,
    ensures
        !registrations_map(s).contains_key(k),
    decreases s.len(),
{
    if s.len() > 0 {
        assert(forall|j: int| 0 <= j < s.drop_last().len() ==> (#[trigger] s.drop_last()[j]).0@ != k);
        lemma_registrations_no_match(s.drop_last(), k);
        assert(s[s.len() - 1].0@ != k);
    }
}

/// A name is bound only if some registration bound it: a lookup never hands
/// back a handler under a name that was never registered.
pub proof fn lemma_lookup_only_registered<H>(s: Seq<(String, H)>, k: Seq<char>)
    ensures
        registrations_map::<H>(s).contains_key(k) ==> exists|i: int|
            0 <= i < s.len() && (#[trigger] s[i]).0@ == k,
    decreases s.len(),
{
    if s.len() > 0 && registrations_map::<H>(s).contains_key(k) {
        if s.last().0@ == k {
            assert(s[s.len() - 1].0@ == k);
        } else {
            lemma_lookup_only_registered(s.drop_last(), k);
            let i = choose|i: int|
                0 <= i < s.drop_last().len() && (#[trigger] s.drop_last()[i]).0@ == k;
            assert(s[i].0@ == k);
        }
    }
}

/// The name-to-handler table the executor consults. Handlers are opaque to
/// the library: it stores and hands them back, nothing more. Locking around
/// the table belongs to the caller that shares it.
pub struct TaskRegistry<H> {
    pub entries: Vec<(String, H)>,
}

impl<H> View for TaskRegistry<H> {
    type V = Map<Seq<char>, H>;

    open spec fn view(&self) -> Map<Seq<char>, H> {
        registrations_map(self.entries@)
    }
}

impl<H> TaskRegistry<H> {
    pub fn new() -> (r: TaskRegistry<H>)
        ensures
            r@ =~= Map::<Seq<char>, H>::empty(),
            r.entries@.len() == 0,
    {
        TaskRegistry { entries: Vec::new() }
    }

    /// Binds the handler to the name, overriding an earlier binding under
    /// the same name.
    pub fn register(&mut self, name: &str, handler: H)
        ensures
            final(self)@ == old(self)@.insert(name@, handler),
    {
        self.entries.push((name.to_owned(), handler));
        proof {
            assert(self.entries@.drop_last() =~= old(self).entries@);
        }
    }

    /// The handler most recently bound to the name, if any.
    pub fn get(&self, name: &str) -> (r: Option<&H>)
        ensures
            r matches Some(h) ==> self@.contains_key(name@) && *h == self@[name@],
            r is None ==> !self@.contains_key(name@),
    {
        let key = name.to_owned();
        let mut i: usize = self.entries.len();
        while i > 0
            invariant
                key@ == name@,
                i <= self.entries@.len(),
                forall|j: int| i <= j < self.entries@.len() ==> (#[trigger] self.entries@[j]).0@
                    != name@,
            decreases i,
        {
            i = i - 1;
            let entry = &self.entries[i];
            if entry.0 == key {
                proof {
                    lemma_registrations_last_match(self.entries@, i as int, name@);
                }
                return Some(&entry.1);
            }
        }
        proof {
            lemma_registrations_no_match(self.entries@, name@);
        }
        None
    }
}

impl<H> Default for TaskRegistry<H> {
    /// The default registry is empty.
    fn default() -> (r: Self)
        ensures
            r@ =~= Map::<Seq<char>, H>::empty(),
    {
        TaskRegistry::new()
    }
}

} // verus!
