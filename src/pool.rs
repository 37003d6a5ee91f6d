use vstd::prelude::*;
use crate::value::{find_key, key_position, lemma_find_key, lemma_find_key_first};

verus! {

/// The open database handles, keyed by database name.
pub struct IndexDBPool {
    pub connections: Vec<(String, u64)>,
}

/// The handle cached for database `name`, if any.
pub open spec fn handle_of(p: Seq<(String, u64)>, name: Seq<char>) -> Option<u64> {
    match find_key(p, name) {
        Some(i) => Some(p[i].1),
        None => None,
    }
}

/// The pool after asking for database `name` with `fresh` as the handle a new
/// opening would give: unchanged when a handle is cached, else `fresh` is added.
pub open spec fn acquired(p: Seq<(String, u64)>, name: String, fresh: u64) -> Seq<(String, u64)> {
    match handle_of(p, name@) {
        Some(_) => p,
        None => p.push((name, fresh)),
    }
}

/// The handle handed out when asking for database `name`.
pub open spec fn acquired_handle(p: Seq<(String, u64)>, name: Seq<char>, fresh: u64) -> u64 {
    match handle_of(p, name) {
        Some(h) => h,
        None => fresh,
    }
}

pub proof fn lemma_acquired_cached(p: Seq<(String, u64)>, name: String, fresh: u64)
    ensures
        handle_of(acquired(p, name, fresh), name@) == Some(acquired_handle(p, name@, fresh)),
{
    lemma_find_key(p, name@);
    if handle_of(p, name@) is None {
        let np = p.push((name, fresh));
        assert forall|j: int| 0 <= j < p.len() implies np[j].0@ != name@ by {
            assert(np[j] == p[j]);
        }
        lemma_find_key_first(np, name@, p.len() as int);
    }
}

/// Two requests for the same database, one after the other, observe the same
/// handle, whatever handle a new opening would have given the second.
pub proof fn lemma_same_handle(p: Seq<(String, u64)>, name: String, fresh1: u64, fresh2: u64)
    ensures
        acquired_handle(acquired(p, name, fresh1), name@, fresh2) == acquired_handle(p, name@, fresh1),
        acquired(acquired(p, name, fresh1), name, fresh2) == acquired(p, name, fresh1),
{
    lemma_acquired_cached(p, name, fresh1);
}

/// Appending an entry changes what a name finds only for the appended name,
/// and only where the name had no entry.
pub proof fn lemma_handle_push(a: Seq<(String, u64)>, b: Seq<(String, u64)>, e: (String, u64), other: Seq<char>)
    requires
        handle_of(a, other) == handle_of(b, other),
    ensures
        handle_of(a.push(e), other) == handle_of(b.push(e), other),
        e.0@ != other ==> handle_of(a.push(e), other) == handle_of(a, other),
{
    lemma_find_key(a, other);
    lemma_find_key(b, other);
    lemma_find_key(a.push(e), other);
    lemma_find_key(b.push(e), other);
    match find_key(a, other) {
        Some(j) => {
            assert forall|k: int| 0 <= k < j implies a.push(e)[k].0@ != other by {
                assert(a.push(e)[k] == a[k]);
            }
            lemma_find_key_first(a.push(e), other, j);
        },
        None => {
            assert forall|k: int| 0 <= k < a.len() implies a.push(e)[k].0@ != other by {
                assert(a.push(e)[k] == a[k]);
            }
            if e.0@ == other {
                lemma_find_key_first(a.push(e), other, a.len() as int);
            }
        },
    }
    match find_key(b, other) {
        Some(j) => {
            assert forall|k: int| 0 <= k < j implies b.push(e)[k].0@ != other by {
                assert(b.push(e)[k] == b[k]);
            }
            lemma_find_key_first(b.push(e), other, j);
        },
        None => {
            assert forall|k: int| 0 <= k < b.len() implies b.push(e)[k].0@ != other by {
                assert(b.push(e)[k] == b[k]);
            }
            if e.0@ == other {
                lemma_find_key_first(b.push(e), other, b.len() as int);
            }
        },
    }
}

impl IndexDBPool {
    /// An empty pool.
    pub fn new() -> (r: IndexDBPool)
        ensures
            r.connections@.len() == 0,
    {
        IndexDBPool { connections: Vec::new() }
    }

    /// The handle cached for database `name`.
    pub fn get_connection(&self, name: &str) -> (r: Option<u64>)
        ensures
            r == handle_of(self.connections@, name@),
    {
        match key_position(&self.connections, name) {
            Some(i) => Some(self.connections[i].1),
            None => None,
        }
    }

    /// Caches `handle` for database `name`, replacing a handle cached before.
    pub fn store_connection(&mut self, name: String, handle: u64)
        ensures
            handle_of(final(self).connections@, name@) == Some(handle),
            forall|other: Seq<char>| other != name@ ==> #[trigger] handle_of(final(self).connections@, other)
                == handle_of(old(self).connections@, other),
    {
        match key_position(&self.connections, name.as_str()) {
            Some(i) => {
                self.connections.set(i, (name, handle));
                proof {
                    lemma_find_key(old(self).connections@, name@);
                    lemma_find_key_first(self.connections@, name@, i as int);
                    assert forall|other: Seq<char>| other != name@ implies #[trigger] handle_of(self.connections@, other)
                        == handle_of(old(self).connections@, other) by {
                        lemma_find_key(old(self).connections@, other);
                        lemma_find_key(self.connections@, other);
                        match find_key(old(self).connections@, other) {
                            Some(j) => lemma_find_key_first(self.connections@, other, j),
                            None => {},
                        }
                    }
                }
            },
            None => {
                let ghost pre = self.connections@;
                self.connections.push((name, handle));
                proof {
                    lemma_find_key(pre, name@);
                    assert forall|j: int| 0 <= j < pre.len() implies self.connections@[j].0@ != name@ by {
                        assert(self.connections@[j] == pre[j]);
                    }
                    lemma_find_key_first(self.connections@, name@, pre.len() as int);
                    assert forall|other: Seq<char>| other != name@ implies #[trigger] handle_of(self.connections@, other)
                        == handle_of(pre, other) by {
                        lemma_find_key(pre, other);
                        lemma_find_key(self.connections@, other);
                        match find_key(pre, other) {
                            Some(j) => {
                                assert forall|k: int| 0 <= k < j implies self.connections@[k].0@ != other by {
                                    assert(self.connections@[k] == pre[k]);
                                }
                                lemma_find_key_first(self.connections@, other, j);
                            },
                            None => {
                                assert forall|k: int| 0 <= k < self.connections@.len() implies self.connections@[k].0@ != other by {
                                    if k < pre.len() {
                                        assert(self.connections@[k] == pre[k]);
                                    }
                                }
                            },
                        }
                    }
                }
            },
        }
    }

    /// Drops the handle cached for database `name`, once it is closed, so that
    /// the next request opens a new one. Other names keep their handles.
    pub fn release(&mut self, name: &str)
        ensures
            handle_of(final(self).connections@, name@) is None,
            forall|other: Seq<char>| other != name@ ==> #[trigger] handle_of(final(self).connections@, other)
                == handle_of(old(self).connections@, other),
    {
        let ghost pre = self.connections@;
        let mut kept: Vec<(String, u64)> = Vec::new();
        let mut i: usize = 0;
        while i < self.connections.len()
            invariant
                0 <= i <= self.connections.len(),
                self.connections@ == pre,
                forall|k: int| 0 <= k < kept@.len() ==> (#[trigger] kept@[k]).0@ != name@,
                forall|other: Seq<char>| other != name@ ==> #[trigger] handle_of(kept@, other)
                    == handle_of(pre.take(i as int), other),
            decreases self.connections.len() - i,
        {
            let entry_name = self.connections[i].0.clone();
            let h = self.connections[i].1;
            if !crate::value::str_eq(entry_name.as_str(), name) {
                let ghost before = kept@;
                kept.push((entry_name, h));
                proof {
                    assert forall|other: Seq<char>| other != name@ implies #[trigger] handle_of(kept@, other)
                        == handle_of(pre.take(i + 1), other) by {
                        lemma_handle_push(before, pre.take(i as int), (entry_name, h), other);
                        assert(pre.take(i + 1) =~= pre.take(i as int).push(pre[i as int]));
                    }
                }
            } else {
                proof {
                    assert forall|other: Seq<char>| other != name@ implies #[trigger] handle_of(kept@, other)
                        == handle_of(pre.take(i + 1), other) by {
                        assert(pre.take(i + 1) =~= pre.take(i as int).push(pre[i as int]));
                        lemma_handle_push(pre.take(i as int), pre.take(i as int), pre[i as int], other);
                    }
                }
            }
            i = i + 1;
        }
        proof {
            assert(pre.take(pre.len() as int) =~= pre);
            lemma_find_key(kept@, name@);
        }
        self.connections = kept;
    }

    /// The handle for database `name`: the cached one, or else `fresh`, which
    /// is cached from then on. The check and the insertion are one step.
    pub fn acquire(&mut self, name: String, fresh: u64) -> (r: u64)
        ensures
            r == acquired_handle(old(self).connections@, name@, fresh),
            final(self).connections@ == acquired(old(self).connections@, name, fresh),
    {
        match self.get_connection(name.as_str()) {
            Some(h) => h,
            None => {
                self.connections.push((name, fresh));
                fresh
            },
        }
    }
}

} // verus!
