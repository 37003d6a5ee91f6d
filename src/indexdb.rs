use vstd::prelude::*;
use crate::error::DbError;
use crate::memory::{Operation, OpType, OpData, key_of};
use crate::query::{QueryNode, RawQuery, holds, parse_query, parsable, query_parses};
use crate::schema::{RawSchema, Schema, raw_schema_ok};
use crate::value::{Value, Document};

verus! {

/// What the indexed object store is asked to do for a write, in its single
/// store named "documents".
pub enum StoreAction {
    /// Store `doc` under the out-of-line key `key`.
    Put { key: String, doc: Document },
    /// Remove the value stored under `key`.
    Delete { key: String },
}

/// The documents among the first `n` of `ds` that satisfy `q`, in order.
pub open spec fn filtered(ds: Seq<Document>, q: QueryNode, n: int) -> Seq<Seq<(String, Value)>>
    decreases n,
{
    if n <= 0 {
        Seq::empty()
    } else {
        let prev = filtered(ds, q, n - 1);
        if holds(q, ds[n - 1].fields@) {
            prev.push(ds[n - 1].fields@)
        } else {
            prev
        }
    }
}

/// How many of the first `n` of `ds` satisfy `q`.
pub open spec fn tally(ds: Seq<Document>, q: QueryNode, n: int) -> nat
    decreases n,
{
    if n <= 0 {
        0
    } else {
        tally(ds, q, n - 1) + if holds(q, ds[n - 1].fields@) { 1nat } else { 0nat }
    }
}

/// Counting the documents of a list that satisfy a query gives the length of
/// the list of those documents.
pub proof fn lemma_tally_is_filtered_len(ds: Seq<Document>, q: QueryNode, n: int)
    ensures
        tally(ds, q, n) == filtered(ds, q, n).len(),
    decreases n,
{
    if n > 0 {
        lemma_tally_is_filtered_len(ds, q, n - 1);
    }
}

/// The backend over the host's indexed object store: one database per name,
/// reached through a pooled handle, holding every document in one store.
pub struct IndexDB {
    pub name: String,
    pub schema: Schema,
    pub handle: u64,
}

impl IndexDB {
    /// Checks the schema and binds the backend to the database handle.
    pub fn create(name: &str, schema_type: RawSchema, handle: u64) -> (r: Result<IndexDB, DbError>)
        ensures
            r is Ok <==> raw_schema_ok(schema_type),
            r is Err ==> r == Err::<IndexDB, DbError>(DbError::ValidationError),
            r matches Ok(db) ==> db.schema.wf() && db.name@ == name@ && db.handle == handle
                && db.schema.primary_key@ == schema_type.primary_key.unwrap()@
                && db.schema.properties@ == schema_type.properties@ && db.schema.version == schema_type.version
                && db.schema.required@ == schema_type.required@ && db.schema.encrypted@ == schema_type.encrypted@
                && db.schema.indexes@ == schema_type.indexes@,
    {
        let schema = Schema::create(schema_type)?;
        Ok(IndexDB { name: name.to_owned(), schema, handle })
    }

    /// The collection's schema.
    pub fn schema(&self) -> (r: &Schema)
        ensures
            *r == self.schema,
    {
        &self.schema
    }

    /// The database name.
    pub fn name(&self) -> (r: String)
        ensures
            r@ == self.name@,
    {
        self.name.clone()
    }

    /// Decides what a write does to the store: a created or updated document
    /// is validated and put under its primary key; a delete removes the key.
    pub fn write(&self, op: Operation) -> (r: Result<StoreAction, DbError>)
        requires
            self.schema.wf(),
        ensures
            match (op.op_type, op.data) {
                (OpType::Create, OpData::Doc(d)) | (OpType::Update, OpData::Doc(d)) => {
                    &&& r is Ok <==> self.schema.accepts(d.fields@)
                    &&& r is Err ==> r == Err::<StoreAction, DbError>(DbError::ValidationError)
                    &&& r matches Ok(StoreAction::Put { key, doc }) ==> doc.fields@ == d.fields@
                        && key_of(d.fields@, self.schema.primary_key@) == Some(key@)
                    &&& !(r matches Ok(StoreAction::Delete { .. }))
                },
                (OpType::Delete, OpData::Key(k)) => r matches Ok(StoreAction::Delete { key }) && key@ == k@,
                (OpType::Create, _) | (OpType::Update, _) | (OpType::Delete, _) =>
                    r == Err::<StoreAction, DbError>(DbError::ValidationError),
                _ => r == Err::<StoreAction, DbError>(DbError::UnsupportedOperation),
            },
    {
        let Operation { collection: _, op_type, data, indexes: _ } = op;
        match op_type {
            OpType::Create | OpType::Update => {
                let d = match data {
                    OpData::Doc(d) => d,
                    _ => return Err(DbError::ValidationError),
                };
                let doc = self.schema.validate_schema(&d)?;
                let key = match d.get(self.schema.primary_key.as_str()) {
                    Some(Value::Str(k)) => k,
                    _ => return Err(DbError::ValidationError),
                };
                Ok(StoreAction::Put { key, doc })
            },
            OpType::Delete => match data {
                OpData::Key(key) => Ok(StoreAction::Delete { key }),
                _ => Err(DbError::ValidationError),
            },
            _ => Err(DbError::UnsupportedOperation),
        }
    }

    /// The documents that the store handed back for a read of all of them,
    /// kept where they satisfy the query.
    pub fn find(&self, docs: Vec<Document>, query: RawQuery) -> (r: Result<Vec<Document>, DbError>)
        ensures
            r is Ok <==> parsable(self.schema.properties@, query),
            r is Err ==> r == Err::<Vec<Document>, DbError>(DbError::QueryError),
            r matches Ok(out) ==> exists|n: QueryNode| query_parses(self.schema.properties@, query, n)
                && crate::memory::docs_view(out@) == filtered(docs@, n, docs@.len() as int),
    {
        let q = parse_query(query, &self.schema.properties)?;
        let mut out: Vec<Document> = Vec::new();
        let mut i: usize = 0;
        while i < docs.len()
            invariant
                0 <= i <= docs.len(),
                crate::memory::docs_view(out@) == filtered(docs@, q, i as int),
            decreases docs.len() - i,
        {
            if q.matches(&docs[i]) {
                let d = docs[i].copy();
                proof {
                    assert(crate::memory::docs_view(out@.push(d)) =~= crate::memory::docs_view(out@).push(d.fields@));
                }
                out.push(d);
            }
            i = i + 1;
        }
        Ok(out)
    }

    /// How many of the documents that the store handed back satisfy the query.
    pub fn count(&self, docs: &Vec<Document>, query: RawQuery) -> (r: Result<usize, DbError>)
        ensures
            r is Ok <==> parsable(self.schema.properties@, query),
            r is Err ==> r == Err::<usize, DbError>(DbError::QueryError),
            r matches Ok(k) ==> exists|n: QueryNode| query_parses(self.schema.properties@, query, n)
                && k == tally(docs@, n, docs@.len() as int),
    {
        let q = parse_query(query, &self.schema.properties)?;
        let mut k: usize = 0;
        let mut i: usize = 0;
        while i < docs.len()
            invariant
                0 <= i <= docs.len(),
                k == tally(docs@, q, i as int),
                k <= i,
            decreases docs.len() - i,
        {
            if q.matches(&docs[i]) {
                k = k + 1;
            }
            i = i + 1;
        }
        Ok(k)
    }

    /// The document that the store handed back for a primary-key lookup.
    pub fn find_document_by_id(&self, got: Option<Document>) -> (r: Result<Document, DbError>)
        ensures
            match got {
                Some(d) => r matches Ok(e) && e.fields@ == d.fields@,
                None => r == Err::<Document, DbError>(DbError::NotFound),
            },
    {
        match got {
            Some(d) => Ok(d),
            None => Err(DbError::NotFound),
        }
    }
}

} // verus!
