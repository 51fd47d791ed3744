use vstd::prelude::*;
use vstd::string::*;
use crate::keyed::{has_key, insert_keyed, keys_distinct, lemma_value_at, position, same_elsewhere, value_of};

verus! {

/// Errors of the reconciliation engine.
#[derive(Debug)]
pub enum Error {
    /// A consistency violation, such as an update of an object never created,
    /// or a failure that a reconcile reports.
    OperatorError(String),
}

/// The engine's cache: the prepared state of each live object, by name.
pub struct OperatorState<St> {
    objects: Vec<(String, St)>,
}

impl<St> OperatorState<St> {
    /// The cached entries.
    pub closed spec fn objects(&self) -> Seq<(String, St)> {
        self.objects@
    }

    /// No name is cached twice.
    pub closed spec fn wf(&self) -> bool {
        keys_distinct(self.objects@)
    }

    /// What is cached under the name.
    pub open spec fn cached(&self, name: Seq<char>) -> Option<St> {
        value_of(self.objects(), name)
    }

    /// An empty cache.
    pub fn new() -> (r: Self)
        ensures
            r.wf(),
            forall|n: Seq<char>| #[trigger] r.cached(n) is None,
    {
        OperatorState { objects: Vec::new() }
    }

    /// Stores `st` under the name and hands back what was stored before.
    fn put(&mut self, name: String, st: St) -> (r: Option<St>)
        requires
            old(self).wf(),
        ensures
            final(self).wf(),
            r == old(self).cached(name@),
            final(self).cached(name@) == Some(st),
            same_elsewhere(old(self).objects(), final(self).objects(), name@),
    {
        insert_keyed(&mut self.objects, name, st)
    }

    /// An object was created (or announced again after a resync): caches its
    /// prepared state and hands back what was cached before, the `old` side
    /// of the reconcile that follows (`None` for a first creation). The `new`
    /// side is what is now cached under the name.
    pub fn on_create(&mut self, name: String, st: St) -> (r: Option<St>)
        requires
            old(self).wf(),
        ensures
            final(self).wf(),
            r == old(self).cached(name@),
            final(self).cached(name@) == Some(st),
            same_elsewhere(old(self).objects(), final(self).objects(), name@),
    {
        self.put(name, st)
    }

    /// An object was modified: caches its prepared state and hands back what
    /// was cached before, the `old` side of the reconcile that follows. An
    /// object that was not cached is cached all the same, and the event fails
    /// with `OperatorError`.
    pub fn on_update(&mut self, name: String, st: St) -> (r: Result<St, Error>)
        requires
            old(self).wf(),
        ensures
            final(self).wf(),
            r.is_ok() == (old(self).cached(name@) is Some),
            r matches Ok(o) ==> old(self).cached(name@) == Some(o),
            final(self).cached(name@) == Some(st),
            same_elsewhere(old(self).objects(), final(self).objects(), name@),
    {
        let label = name.clone();
        match self.put(name, st) {
            Some(o) => Ok(o),
            None => Err(
                Error::OperatorError(
                    "Received update message about an object not in cache: ".to_owned().concat(
                        label.as_str(),
                    ),
                ),
            ),
        }
    }

    /// An object was deleted: removes it from the cache and hands back its
    /// prepared state, the `old` side of the reconcile that follows (whose
    /// `new` side is absent). An object that was not cached fails the event
    /// with `OperatorError` and leaves the cache as it was.
    pub fn on_delete(&mut self, name: &String) -> (r: Result<St, Error>)
        requires
            old(self).wf(),
        ensures
            final(self).wf(),
            r.is_ok() == (old(self).cached(name@) is Some),
            r matches Ok(o) ==> old(self).cached(name@) == Some(o),
            final(self).cached(name@) is None,
            same_elsewhere(old(self).objects(), final(self).objects(), name@),
    {
        let ghost s0 = self.objects@;
        let ghost nm = name@;
        match position(&self.objects, name) {
            Some(i) => {
                proof {
                    lemma_value_at(s0, i as int);
                }
                let (_, prev) = self.objects.remove(i);
                proof {
                    let s1 = self.objects@;
                    assert(s1 =~= s0.remove(i as int));
                    assert forall|a: int, b: int|
                        0 <= a < s1.len() && 0 <= b < s1.len() && a != b implies s1[a].0@ != s1[b].0@ by {
                        let a0 = if a < i { a } else { a + 1 };
                        let b0 = if b < i { b } else { b + 1 };
                        assert(s1[a] == s0[a0]);
                        assert(s1[b] == s0[b0]);
                    }
                    assert(keys_distinct(s1));
                    assert(!has_key(s1, nm)) by {
                        if has_key(s1, nm) {
                            let j = choose|j: int| 0 <= j < s1.len() && s1[j].0@ == nm;
                            let j0 = if j < i { j } else { j + 1 };
                            assert(s1[j] == s0[j0]);
                        }
                    }
                    assert forall|n: Seq<char>| n != nm implies #[trigger] value_of(s1, n) == value_of(
                        s0,
                        n,
                    ) by {
                        if has_key(s0, n) {
                            let j = choose|j: int| 0 <= j < s0.len() && s0[j].0@ == n;
                            lemma_value_at(s0, j);
                            assert(j != i);
                            let j1 = if j < i { j } else { j - 1 };
                            assert(s1[j1] == s0[j]);
                            lemma_value_at(s1, j1);
                        }
                        if has_key(s1, n) {
                            let j = choose|j: int| 0 <= j < s1.len() && s1[j].0@ == n;
                            let j0 = if j < i { j } else { j + 1 };
                            assert(s1[j] == s0[j0]);
                        }
                    }
                }
                Ok(prev)
            },
            None => Err(
                Error::OperatorError(
                    "Received deletion message about an object not in cache: ".to_owned().concat(
                        name.as_str(),
                    ),
                ),
            ),
        }
    }

    /// What is cached under the name.
    pub fn get(&self, name: &String) -> (r: Option<&St>)
        requires
            self.wf(),
        ensures
            r matches Some(v) ==> self.cached(name@) == Some(*v),
            r is None ==> self.cached(name@) is None,
    {
        match position(&self.objects, name) {
            Some(i) => {
                proof {
                    lemma_value_at(self.objects@, i as int);
                }
                Some(&self.objects[i].1)
            },
            None => None,
        }
    }
}

} // verus!
