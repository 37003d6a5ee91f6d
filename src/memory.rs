use vstd::prelude::*;
use crate::error::DbError;
use crate::query::{QueryNode, holds};
use crate::value::{Value, Document, field_of, str_eq};

verus! {

/// The kind of an operation handed to a backend.
#[derive(Debug, Clone, Copy, PartialEq, Eq, Structural)]
pub enum OpType {
    Create,
    Update,
    Delete,
    Query,
    Count,
    FindById,
}

/// The payload of an operation: a document to write, a primary key, or a query.
pub enum OpData {
    Doc(Document),
    Key(String),
    Query(QueryNode),
}

/// An operation on one collection.
pub struct Operation {
    pub collection: String,
    pub op_type: OpType,
    pub data: OpData,
    pub indexes: Vec<String>,
}

/// What a write hands back: the stored document, or word that a document was deleted.
pub enum WriteResult {
    Written(Document),
    Deleted,
}

/// A stored document with its collection and primary key.
pub struct Entry {
    pub collection: String,
    pub key: String,
    pub doc: Document,
}

/// The abstract content of an entry: collection, key and fields.
pub type EntryView = (Seq<char>, Seq<char>, Seq<(String, Value)>);

pub open spec fn entry_view(e: Entry) -> EntryView {
    (e.collection@, e.key@, e.doc.fields@)
}

/// The position of the entry of collection `c` with key `k`, if any.
pub open spec fn entry_index(es: Seq<EntryView>, c: Seq<char>, k: Seq<char>) -> Option<int> {
    if exists|i: int| 0 <= i < es.len() && es[i].0 == c && es[i].1 == k {
        Some(choose|i: int| 0 <= i < es.len() && es[i].0 == c && es[i].1 == k)
    } else {
        None
    }
}

/// The documents of collection `c` among the first `n` entries that satisfy `q`, in order.
pub open spec fn found(es: Seq<EntryView>, c: Seq<char>, q: QueryNode, n: int) -> Seq<Seq<(String, Value)>>
    decreases n,
{
    if n <= 0 {
        Seq::empty()
    } else {
        let prev = found(es, c, q, n - 1);
        let e = es[n - 1];
        if e.0 == c && holds(q, e.2) {
            prev.push(e.2)
        } else {
            prev
        }
    }
}

/// How many of the first `n` entries belong to collection `c` and satisfy `q`.
pub open spec fn counted(es: Seq<EntryView>, c: Seq<char>, q: QueryNode, n: int) -> nat
    decreases n,
{
    if n <= 0 {
        0
    } else {
        let e = es[n - 1];
        counted(es, c, q, n - 1) + if e.0 == c && holds(q, e.2) { 1nat } else { 0nat }
    }
}

/// On one state of the store, counting a query's matches gives the length of
/// the list of documents found for it.
pub proof fn lemma_count_is_found_len(es: Seq<EntryView>, c: Seq<char>, q: QueryNode, n: int)
    ensures
        counted(es, c, q, n) == found(es, c, q, n).len(),
    decreases n,
{
    if n > 0 {
        lemma_count_is_found_len(es, c, q, n - 1);
    }
}

/// The entries after writing document `d` under collection `c` and key `k`:
/// the entry is replaced where present, else appended.
pub open spec fn upserted(es: Seq<EntryView>, c: Seq<char>, k: Seq<char>, d: Seq<(String, Value)>) -> Seq<EntryView> {
    match entry_index(es, c, k) {
        Some(i) => es.update(i, (c, k, d)),
        None => es.push((c, k, d)),
    }
}

/// The entries after deleting the entry of collection `c` with key `k`.
pub open spec fn removed(es: Seq<EntryView>, c: Seq<char>, k: Seq<char>) -> Seq<EntryView> {
    match entry_index(es, c, k) {
        Some(i) => es.remove(i),
        None => es,
    }
}

/// The primary key of a document: the string in field `pk`, if it holds one.
pub open spec fn key_of(fields: Seq<(String, Value)>, pk: Seq<char>) -> Option<Seq<char>> {
    match field_of(fields, pk) {
        Some(Value::Str(s)) => Some(s@),
        _ => None,
    }
}

/// No two entries share a collection and a key.
pub open spec fn keys_distinct(es: Seq<EntryView>) -> bool {
    forall|i: int, j: int| 0 <= i < j < es.len() ==> !(es[i].0 == es[j].0 && es[i].1 == es[j].1)
}

/// After a document is written under a collection and key, looking that key
/// up finds exactly that document.
pub proof fn lemma_upserted_found(es: Seq<EntryView>, c: Seq<char>, k: Seq<char>, d: Seq<(String, Value)>)
    requires
        keys_distinct(es),
    ensures
        keys_distinct(upserted(es, c, k, d)),
        entry_index(upserted(es, c, k, d), c, k) matches Some(i) && upserted(es, c, k, d)[i].2 == d,
{
    let nes = upserted(es, c, k, d);
    match entry_index(es, c, k) {
        Some(i) => {
            assert(nes[i].0 == c && nes[i].1 == k);
            let j = choose|j: int| 0 <= j < nes.len() && nes[j].0 == c && nes[j].1 == k;
            if j != i {
                assert(es[j].0 == c && es[j].1 == k);
                assert(es[i].0 == c && es[i].1 == k);
            }
        },
        None => {
            let last = es.len() as int;
            assert(nes[last].0 == c && nes[last].1 == k);
            let j = choose|j: int| 0 <= j < nes.len() && nes[j].0 == c && nes[j].1 == k;
            if j != last {
                assert(es[j].0 == c && es[j].1 == k);
            }
            assert forall|a: int, b: int| 0 <= a < b < nes.len() implies !(nes[a].0 == nes[b].0 && nes[a].1 == nes[b].1) by {
                if b == last {
                    assert(!(es[a].0 == c && es[a].1 == k));
                }
            }
        },
    }
}

/// The fields of each document of a list.
pub open spec fn docs_view(ds: Seq<Document>) -> Seq<Seq<(String, Value)>> {
    ds.map_values(|d: Document| d.fields@)
}

/// The in-memory backend: each collection maps primary keys to documents.
pub struct InMemory {
    pub name: String,
    pub entries: Vec<Entry>,
}

impl InMemory {
    pub open spec fn view(&self) -> Seq<EntryView> {
        self.entries@.map_values(|e: Entry| entry_view(e))
    }

    /// No two entries share a collection and a key.
    pub open spec fn wf(&self) -> bool {
        keys_distinct(self.view())
    }

    /// An empty store named `name`.
    pub fn new(name: String) -> (r: InMemory)
        ensures
            r.wf(),
            r.view().len() == 0,
            r.name@ == name@,
    {
        InMemory { name, entries: Vec::new() }
    }

    /// Locates the entry of collection `c` with key `k`.
    pub fn position(&self, c: &str, k: &str) -> (r: Option<usize>)
        requires
            self.wf(),
        ensures
            match r {
                Some(i) => i < self.view().len() && entry_index(self.view(), c@, k@) == Some(i as int),
                None => entry_index(self.view(), c@, k@) is None,
            },
    {
        let mut i: usize = 0;
        while i < self.entries.len()
            invariant
                0 <= i <= self.entries.len(),
                self.wf(),
                forall|j: int| 0 <= j < i ==> !(self.view()[j].0 == c@ && self.view()[j].1 == k@),
            decreases self.entries.len() - i,
        {
            if str_eq(self.entries[i].collection.as_str(), c) && str_eq(self.entries[i].key.as_str(), k) {
                proof {
                    assert(self.view()[i as int].0 == c@ && self.view()[i as int].1 == k@);
                    let w = choose|j: int| 0 <= j < self.view().len() && self.view()[j].0 == c@ && self.view()[j].1 == k@;
                    if w != i {
                        if w < i {
                        } else {
                            assert(!(self.view()[i as int].0 == self.view()[w].0 && self.view()[i as int].1 == self.view()[w].1));
                        }
                    }
                }
                return Some(i);
            }
            i = i + 1;
        }
        None
    }

    /// Applies a create, update or delete operation; `primary_key` names the
    /// field that holds a document's key.
    pub fn write(&mut self, op: Operation, primary_key: &str) -> (r: Result<WriteResult, DbError>)
        requires
            old(self).wf(),
        ensures
            final(self).wf(),
            final(self).name == old(self).name,
            match (op.op_type, op.data) {
                (OpType::Create, OpData::Doc(d)) | (OpType::Update, OpData::Doc(d)) => match key_of(d.fields@, primary_key@) {
                    Some(k) => r matches Ok(WriteResult::Written(w)) && w.fields@ == d.fields@
                        && final(self).view() == upserted(old(self).view(), op.collection@, k, d.fields@),
                    None => r == Err::<WriteResult, DbError>(DbError::ValidationError)
                        && final(self).view() == old(self).view(),
                },
                (OpType::Delete, OpData::Key(k)) => r matches Ok(WriteResult::Deleted)
                    && final(self).view() == removed(old(self).view(), op.collection@, k@),
                (OpType::Create, _) | (OpType::Update, _) | (OpType::Delete, _) =>
                    r == Err::<WriteResult, DbError>(DbError::ValidationError) && final(self).view() == old(self).view(),
                _ => r == Err::<WriteResult, DbError>(DbError::UnsupportedOperation) && final(self).view() == old(self).view(),
            },
    {
        let Operation { collection, op_type, data, indexes: _ } = op;
        match op_type {
            OpType::Create | OpType::Update => {
                let d = match data {
                    OpData::Doc(d) => d,
                    _ => return Err(DbError::ValidationError),
                };
                let k = match d.get(primary_key) {
                    Some(Value::Str(k)) => k,
                    _ => return Err(DbError::ValidationError),
                };
                let out = d.copy();
                let pos = self.position(collection.as_str(), k.as_str());
                let ghost pre = self.view();
                let e = Entry { collection, key: k, doc: d };
                match pos {
                    Some(i) => {
                        self.entries.set(i, e);
                        proof {
                            assert(self.view() =~= pre.update(i as int, entry_view(e)));
                        }
                    },
                    None => {
                        self.entries.push(e);
                        proof {
                            assert(self.view() =~= pre.push(entry_view(e)));
                            assert forall|a: int| 0 <= a < pre.len() implies
                                !(self.view()[a].0 == e.collection@ && self.view()[a].1 == e.key@) by {
                                assert(self.view()[a] == pre[a]);
                                if pre[a].0 == e.collection@ && pre[a].1 == e.key@ {
                                    assert(entry_index(pre, e.collection@, e.key@) is Some);
                                }
                            }
                        }
                    },
                }
                Ok(WriteResult::Written(out))
            },
            OpType::Delete => {
                let k = match data {
                    OpData::Key(k) => k,
                    _ => return Err(DbError::ValidationError),
                };
                let ghost pre = self.view();
                match self.position(collection.as_str(), k.as_str()) {
                    Some(i) => {
                        self.entries.remove(i);
                        proof {
                            assert(self.view() =~= pre.remove(i as int));
                        }
                    },
                    None => {},
                }
                Ok(WriteResult::Deleted)
            },
            _ => Err(DbError::UnsupportedOperation),
        }
    }

    /// The document of collection `c` with primary key `k`.
    pub fn find_document_by_id(&self, c: &str, k: &str) -> (r: Result<Document, DbError>)
        requires
            self.wf(),
        ensures
            match entry_index(self.view(), c@, k@) {
                Some(i) => r matches Ok(d) && d.fields@ == self.view()[i].2,
                None => r == Err::<Document, DbError>(DbError::NotFound),
            },
    {
        match self.position(c, k) {
            Some(i) => Ok(self.entries[i].doc.copy()),
            None => Err(DbError::NotFound),
        }
    }

    /// The documents of collection `c` that satisfy `q`, in storage order.
    pub fn find(&self, c: &str, q: &QueryNode) -> (r: Vec<Document>)
        ensures
            docs_view(r@) == found(self.view(), c@, *q, self.view().len() as int),
    {
        let mut out: Vec<Document> = Vec::new();
        let mut i: usize = 0;
        while i < self.entries.len()
            invariant
                0 <= i <= self.entries.len(),
                docs_view(out@) == found(self.view(), c@, *q, i as int),
            decreases self.entries.len() - i,
        {
            let e = &self.entries[i];
            if str_eq(e.collection.as_str(), c) && q.matches(&e.doc) {
                let d = e.doc.copy();
                proof {
                    assert(docs_view(out@.push(d)) =~= docs_view(out@).push(d.fields@));
                }
                out.push(d);
            }
            i = i + 1;
        }
        out
    }

    /// How many documents of collection `c` satisfy `q`.
    pub fn count(&self, c: &str, q: &QueryNode) -> (r: usize)
        ensures
            r == counted(self.view(), c@, *q, self.view().len() as int),
    {
        let mut n: usize = 0;
        let mut i: usize = 0;
        while i < self.entries.len()
            invariant
                0 <= i <= self.entries.len(),
                n == counted(self.view(), c@, *q, i as int),
                n <= i,
            decreases self.entries.len() - i,
        {
            let e = &self.entries[i];
            if str_eq(e.collection.as_str(), c) && q.matches(&e.doc) {
                n = n + 1;
            }
            i = i + 1;
        }
        n
    }
}

} // verus!
