use vstd::prelude::*;
use crate::error::DbError;
use crate::memory::{InMemory, Operation, OpType, OpData, WriteResult, EntryView, entry_index, upserted, removed,
    key_of, found, counted, docs_view};
use crate::plugin::{PluginKind, Hooks, created_step, recovered_step, create_trace, recover_trace, read_order,
    encrypt_fields, decrypt_fields, plugin_chain, plugin_order, stamp_version, migrate_doc,
    version_field, doc_version};
use crate::query::{RawQuery, QueryNode, parse_query, parsable, query_parses, lemma_parse_agrees};
use crate::schema::{Property, RawSchema, Schema, raw_schema_ok};
use crate::value::{Value, Document, find_key, key_position, field_set};

verus! {

/// Whether the migration functions given for a collection suffice for its
/// schema version: none are needed at version 0, else one for each version
/// from 1 up to it.
pub open spec fn migrations_ok(version: u32, given: Option<Seq<u32>>) -> bool {
    version == 0 || (given is Some && forall|v: u32| 1 <= v <= version ==> #[trigger] given.unwrap().contains(v))
}

/// The versions that have a migration function for the collection named `c`.
pub open spec fn migrations_of(ms: Seq<(String, Vec<u32>)>, c: Seq<char>) -> Option<Seq<u32>> {
    match find_key(ms, c) {
        Some(i) => Some(ms[i].1@),
        None => None,
    }
}

/// Decides whether a migration function exists for each version from 1 up to `version`.
pub fn all_versions_present(vs: &Vec<u32>, version: u32) -> (r: bool)
    ensures
        r == forall|v: u32| 1 <= v <= version ==> #[trigger] vs@.contains(v),
{
    let mut v: u32 = 1;
    while v <= version
        invariant
            1 <= v <= version as int + 1,
            forall|w: u32| 1 <= w < v ==> #[trigger] vs@.contains(w),
        decreases version as int + 1 - v,
    {
        if !crate::plugin::has_version(vs, v) {
            return false;
        }
        if v == version {
            return true;
        }
        v = v + 1;
    }
    true
}

/// Every document found is the document of some entry.
pub proof fn lemma_found_from_store(es: Seq<EntryView>, c: Seq<char>, q: QueryNode, n: int)
    requires
        0 <= n <= es.len(),
    ensures
        forall|j: int| 0 <= j < found(es, c, q, n).len() ==>
            exists|k: int| 0 <= k < es.len() && #[trigger] found(es, c, q, n)[j] == es[k].2,
    decreases n,
{
    if n > 0 {
        lemma_found_from_store(es, c, q, n - 1);
        let prev = found(es, c, q, n - 1);
        assert forall|j: int| 0 <= j < found(es, c, q, n).len() implies
            exists|k: int| 0 <= k < es.len() && #[trigger] found(es, c, q, n)[j] == es[k].2 by {
            if j < prev.len() {
                assert(found(es, c, q, n)[j] == prev[j]);
            } else {
                assert(found(es, c, q, n)[j] == es[n - 1].2);
            }
        }
    }
}

/// A document created through the built-in chain reads back by its key as
/// stored: at the schema's version, and with every field but the version as
/// the caller wrote it.
pub proof fn lemma_create_then_find(es: Seq<EntryView>, c: Seq<char>, k: Seq<char>, d: Seq<(String, Value)>,
    w: Seq<(String, Value)>, version: u32)
    requires
        crate::memory::keys_distinct(es),
        field_set(d, w, version_field(), Value::Number(version as i64)),
    ensures
        entry_index(upserted(es, c, k, w), c, k) matches Some(i) && upserted(es, c, k, w)[i].2 == w,
        doc_version(w) == Some(version as int),
        forall|f: Seq<char>| f != version_field() ==> #[trigger] crate::value::field_of(w, f)
            == crate::value::field_of(d, f),
{
    crate::memory::lemma_upserted_found(es, c, k, w);
    crate::value::lemma_field_set(d, w, version_field(), Value::Number(version as i64));
}

proof fn lemma_found_agrees(props: Seq<(String, Property)>, raw: RawQuery, n: QueryNode, m: QueryNode,
    es: Seq<EntryView>, c: Seq<char>, k: int)
    requires
        query_parses(props, raw, n),
        query_parses(props, raw, m),
        k <= es.len(),
    ensures
        found(es, c, n, k) == found(es, c, m, k),
    decreases k,
{
    if k > 0 {
        lemma_found_agrees(props, raw, n, m, es, c, k - 1);
        lemma_parse_agrees(props, raw, n, m, es[k - 1].2);
    }
}

/// On one state of the store, the count of a query equals the number of
/// documents that finding the same query lists.
pub proof fn lemma_count_is_find_len(props: Seq<(String, Property)>, raw: RawQuery, n: QueryNode, m: QueryNode,
    es: Seq<EntryView>, c: Seq<char>)
    requires
        query_parses(props, raw, n),
        query_parses(props, raw, m),
    ensures
        counted(es, c, m, es.len() as int) == found(es, c, n, es.len() as int).len(),
{
    crate::memory::lemma_count_is_found_len(es, c, m, es.len() as int);
    lemma_found_agrees(props, raw, n, m, es, c, es.len() as int);
}

/// The create hooks of a chain that ends with the migration plugin leave the
/// schema's version recorded in the document.
pub proof fn lemma_creates_stamps<C, R, M, S, O>(hooks: Hooks<C, R, M, S, O>, chain: Seq<PluginKind>, schema: Schema,
    a: Document, b: Document)
    where
        C: Fn(PluginKind, Document) -> Result<Document, DbError>,
        R: Fn(PluginKind, Document) -> Result<Document, DbError>,
        M: Fn(u32, Document) -> Result<Document, DbError>,
        S: Fn(Value) -> Value,
        O: Fn(Value) -> Result<Value, DbError>,
    requires
        hooks.creates(chain, schema, a, b),
        chain.len() > 0,
        chain.last() == PluginKind::Migration,
    ensures
        doc_version(b.fields@) == Some(schema.version as int),
{
    let ds = choose|ds: Seq<Document>| #[trigger] create_trace(hooks.create, hooks.seal, chain, schema, ds)
        && ds[0] == a && ds.last() == b;
    let n = chain.len() - 1;
    assert(created_step(hooks.create, hooks.seal, chain[n], schema, ds[n], ds[n + 1]));
    crate::value::lemma_field_set(ds[n].fields@, ds[n + 1].fields@, version_field(), Value::Number(schema.version as i64));
}

proof fn lemma_create_step<C, R, M, S, O>(hooks: Hooks<C, R, M, S, O>, chain: Seq<PluginKind>, schema: Schema,
    ds: Seq<Document>, i: int)
    where
        C: Fn(PluginKind, Document) -> Result<Document, DbError>,
        R: Fn(PluginKind, Document) -> Result<Document, DbError>,
        M: Fn(u32, Document) -> Result<Document, DbError>,
        S: Fn(Value) -> Value,
        O: Fn(Value) -> Result<Value, DbError>,
    requires
        create_trace(hooks.create, hooks.seal, chain, schema, ds),
        0 <= i < chain.len(),
    ensures
        created_step(hooks.create, hooks.seal, chain[i], schema, ds[i], ds[i + 1]),
{
}

proof fn lemma_recover_step<C, R, M, S, O>(hooks: Hooks<C, R, M, S, O>, order: Seq<PluginKind>, schema: Schema,
    rs: Seq<Document>, i: int)
    where
        C: Fn(PluginKind, Document) -> Result<Document, DbError>,
        R: Fn(PluginKind, Document) -> Result<Document, DbError>,
        M: Fn(u32, Document) -> Result<Document, DbError>,
        S: Fn(Value) -> Value,
        O: Fn(Value) -> Result<Value, DbError>,
    requires
        recover_trace(hooks.recover, hooks.migrate, hooks.open, order, schema, rs),
        0 <= i < order.len(),
    ensures
        recovered_step(hooks.recover, hooks.migrate, hooks.open, order[i], schema, rs[i], rs[i + 1]),
{
}

/// Two field lists with the same names in the same places find each name at
/// the same place.
pub proof fn lemma_same_keys(a: Seq<(String, Value)>, b: Seq<(String, Value)>, f: Seq<char>)
    requires
        a.len() == b.len(),
        forall|i: int| 0 <= i < a.len() ==> (#[trigger] b[i]).0@ == a[i].0@,
    ensures
        find_key(a, f) == find_key(b, f),
{
    crate::value::lemma_find_key(a, f);
    crate::value::lemma_find_key(b, f);
    match find_key(a, f) {
        Some(i) => {
            assert(b[i].0@ == a[i].0@);
            assert forall|j: int| 0 <= j < i implies b[j].0@ != f by {
                assert(b[j].0@ == a[j].0@);
            }
            crate::value::lemma_find_key_first(b, f, i);
        },
        None => {
            assert forall|j: int| 0 <= j < b.len() implies b[j].0@ != f by {
                assert(b[j].0@ == a[j].0@);
            }
        },
    }
}

/// With encryption in the chain, a document created through it reads back by
/// its key with every field but the version as the caller wrote it, provided
/// the cipher's `open` gives back what its `seal` was given.
pub proof fn lemma_encrypted_round_trip<C, R, M, S, O>(hooks: Hooks<C, R, M, S, O>, schema: Schema, d: Document,
    w: Document, b: Document, out: Document, f: Seq<char>)
    where
        C: Fn(PluginKind, Document) -> Result<Document, DbError>,
        R: Fn(PluginKind, Document) -> Result<Document, DbError>,
        M: Fn(u32, Document) -> Result<Document, DbError>,
        S: Fn(Value) -> Value,
        O: Fn(Value) -> Result<Value, DbError>,
    requires
        forall|v: Value, c: Value, p: Value| #[trigger] hooks.seal.ensures((v,), c)
            && #[trigger] hooks.open.ensures((c,), Ok::<Value, DbError>(p)) ==> p == v,
        hooks.creates(seq![PluginKind::Encryption, PluginKind::Migration], schema, d, w),
        b.fields@ == w.fields@,
        hooks.recovers(read_order(seq![PluginKind::Encryption, PluginKind::Migration]), schema, b, out),
        f != crate::plugin::version_field(),
    ensures
        crate::value::field_of(out.fields@, f) == crate::value::field_of(d.fields@, f),
{
    let chain = seq![PluginKind::Encryption, PluginKind::Migration];
    let ord = read_order(chain);
    assert(ord =~= seq![PluginKind::Migration, PluginKind::Encryption]);
    let ds = choose|ds: Seq<Document>| #[trigger] create_trace(hooks.create, hooks.seal, chain, schema, ds)
        && ds[0] == d && ds.last() == w;
    let rs = choose|rs: Seq<Document>| #[trigger] recover_trace(hooks.recover, hooks.migrate, hooks.open, ord, schema, rs)
        && rs[0] == b && rs.last() == out;
    lemma_create_step(hooks, chain, schema, ds, 0);
    lemma_create_step(hooks, chain, schema, ds, 1);
    lemma_recover_step(hooks, ord, schema, rs, 0);
    lemma_recover_step(hooks, ord, schema, rs, 1);
    let sealed_doc = ds[1].fields@;
    let stamped = ds[2].fields@;
    crate::value::lemma_field_set(sealed_doc, stamped, version_field(), Value::Number(schema.version as i64));
    // the stored document is at the schema's version, so the migration plugin leaves it
    assert(doc_version(b.fields@) == Some(schema.version as int));
    assert(!crate::plugin::needs_migration(schema, b.fields@));
    assert(rs[1].fields@ == stamped);
    let opened_doc = rs[2].fields@;
    lemma_same_keys(d.fields@, sealed_doc, f);
    lemma_same_keys(stamped, opened_doc, f);
    crate::value::lemma_find_key(d.fields@, f);
    match find_key(d.fields@, f) {
        Some(i) => {
            crate::value::lemma_field_set(sealed_doc, stamped, version_field(), Value::Number(schema.version as i64));
            lemma_same_keys(d.fields@, sealed_doc, f);
            crate::value::lemma_find_key(stamped, f);
            let k = find_key(stamped, f).unwrap();
            assert(crate::value::field_of(stamped, f) == crate::value::field_of(sealed_doc, f));
            assert(stamped[k].1 == sealed_doc[i].1);
            assert(ord[1] == PluginKind::Encryption);
            assert(crate::plugin::opened(hooks.open, schema, stamped, opened_doc));
            assert(0 <= k < stamped.len());
            assert(opened_doc[k].0 == stamped[k].0);
            assert(sealed_doc[i].0 == d.fields@[i].0);
            if crate::plugin::is_encrypted(schema, d.fields@[i].0@) {
                assert(hooks.seal.ensures((d.fields@[i].1,), sealed_doc[i].1));
                assert(hooks.open.ensures((stamped[k].1,), Ok::<Value, DbError>(opened_doc[k].1)));
            }
        },
        None => {},
    }
}

/// A database: its collections' schemas, the migrations available for them,
/// the plugin chain, and the backend that stores the documents.
pub struct Database {
    pub name: String,
    pub schemas: Vec<(String, Schema)>,
    pub migrations: Vec<(String, Vec<u32>)>,
    pub plugins: Vec<PluginKind>,
    pub storage: InMemory,
}

impl Database {
    pub open spec fn wf(&self) -> bool {
        &&& forall|i: int| 0 <= i < self.schemas@.len() ==> (#[trigger] self.schemas@[i]).1.wf()
        &&& self.storage.wf()
        &&& self.plugins@.len() > 0
        &&& self.plugins@.last() == PluginKind::Migration
    }

    /// The schema of collection `c`, if the database has that collection.
    pub open spec fn schema_of(&self, c: Seq<char>) -> Option<Schema> {
        match find_key(self.schemas@, c) {
            Some(i) => Some(self.schemas@[i].1),
            None => None,
        }
    }

    /// Whether `out` is what the recover hooks make of a document with fields `fields`.
    pub open spec fn recovered_from<C, R, M, S, O>(&self, hooks: Hooks<C, R, M, S, O>, schema: Schema,
        fields: Seq<(String, Value)>, out: Document) -> bool
    where
        C: Fn(PluginKind, Document) -> Result<Document, DbError>,
        R: Fn(PluginKind, Document) -> Result<Document, DbError>,
        M: Fn(u32, Document) -> Result<Document, DbError>,
        S: Fn(Value) -> Value,
        O: Fn(Value) -> Result<Value, DbError>,
    {
        exists|b: Document| b.fields@ == fields && #[trigger] hooks.recovers(read_order(self.plugins@), schema, b, out)
    }

    /// Whether the chain holds the migration plugin alone.
    pub open spec fn builtin_only(&self) -> bool {
        self.plugins@ == seq![PluginKind::Migration]
    }

    /// Builds a database over an empty in-memory backend: checks each schema and
    /// that each collection past version 0 has its migration functions, and
    /// chains the user plugins, the encryption plugin when a password is given,
    /// and the migration plugin.
    pub fn create(db_name: &str, schemas: Vec<(String, RawSchema)>, migrations: Vec<(String, Vec<u32>)>,
        n_user_plugins: u64, password: &Option<String>, backend: Option<InMemory>) -> (r: Result<Database, DbError>)
        requires
            n_user_plugins < usize::MAX - 2,
            backend matches Some(b) ==> b.wf(),
        ensures
            r is Ok <==> forall|i: int| 0 <= i < schemas@.len() ==> raw_schema_ok(#[trigger] schemas@[i].1)
                && migrations_ok(schemas@[i].1.version, migrations_of(migrations@, schemas@[i].0@)),
            (forall|i: int| 0 <= i < schemas@.len() ==> raw_schema_ok(#[trigger] schemas@[i].1)) ==>
                (r is Err ==> r == Err::<Database, DbError>(DbError::MigrationError)),
            (forall|i: int| 0 <= i < schemas@.len() ==>
                migrations_ok(#[trigger] schemas@[i].1.version, migrations_of(migrations@, schemas@[i].0@))) ==>
                (r is Err ==> r == Err::<Database, DbError>(DbError::ValidationError)),
            r matches Ok(db) ==> {
                &&& db.wf()
                &&& db.name@ == db_name@
                &&& db.plugins@ == plugin_order(n_user_plugins as nat, password is Some)
                &&& db.storage.view() == (match backend {
                    Some(b) => b.view(),
                    None => Seq::<EntryView>::empty(),
                })
                &&& db.migrations@ == migrations@
                &&& db.schemas@.len() == schemas@.len()
                &&& forall|i: int| 0 <= i < schemas@.len() ==> (#[trigger] db.schemas@[i]).0@ == schemas@[i].0@
                    && db.schemas@[i].1.version == schemas@[i].1.version
                    && db.schemas@[i].1.primary_key@ == schemas@[i].1.primary_key.unwrap()@
                    && db.schemas@[i].1.properties@ == schemas@[i].1.properties@
                    && db.schemas@[i].1.required@ == schemas@[i].1.required@
                    && db.schemas@[i].1.encrypted@ == schemas@[i].1.encrypted@
                    && db.schemas@[i].1.indexes@ == schemas@[i].1.indexes@
            },
    {
        let ghost orig = schemas@;
        let total = schemas.len();
        let mut rest = schemas;
        let mut out: Vec<(String, Schema)> = Vec::new();
        let mut i: usize = 0;
        proof {
            assert(rest@.skip(0) =~= rest@);
        }
        while rest.len() > 0
            invariant
                orig == schemas@,
                orig.len() == total,
                i + rest@.len() == total,
                rest@ == orig.skip(i as int),
                out@.len() == i,
                forall|j: int| 0 <= j < i ==> raw_schema_ok(#[trigger] orig[j].1)
                    && migrations_ok(orig[j].1.version, migrations_of(migrations@, orig[j].0@)),
                forall|j: int| 0 <= j < i ==> (#[trigger] out@[j]).0@ == orig[j].0@ && out@[j].1.wf()
                    && out@[j].1.version == orig[j].1.version
                    && out@[j].1.primary_key@ == orig[j].1.primary_key.unwrap()@
                    && out@[j].1.properties@ == orig[j].1.properties@
                    && out@[j].1.required@ == orig[j].1.required@
                    && out@[j].1.encrypted@ == orig[j].1.encrypted@
                    && out@[j].1.indexes@ == orig[j].1.indexes@,
            decreases rest@.len(),
        {
            let (name, raw) = rest.remove(0);
            proof {
                assert(orig[i as int] == (name, raw));
            }
            let given = key_position(&migrations, name.as_str());
            let version = raw.version;
            let schema = match Schema::create(raw) {
                Ok(s) => s,
                Err(e) => return Err(e),
            };
            if version > 0 {
                match given {
                    Some(m) => {
                        if !all_versions_present(&migrations[m].1, version) {
                            proof {
                                assert(migrations_of(migrations@, orig[i as int].0@) == Some(migrations@[m as int].1@));
                                assert(version == orig[i as int].1.version);
                                let w = choose|w: u32| !(1 <= w <= version ==> migrations@[m as int].1@.contains(w));
                                assert(!migrations_of(migrations@, orig[i as int].0@).unwrap().contains(w));
                                assert(!migrations_ok(orig[i as int].1.version, migrations_of(migrations@, orig[i as int].0@)));
                            }
                            return Err(DbError::MigrationError);
                        }
                    },
                    None => return Err(DbError::MigrationError),
                }
            }
            out.push((name, schema));
            proof {
                assert(rest@ =~= orig.skip(i + 1));
            }
            i = i + 1;
        }
        let plugins = plugin_chain(n_user_plugins, password.is_some());
        let storage = match backend {
            Some(b) => b,
            None => InMemory::new(db_name.to_owned()),
        };
        Ok(Database { name: db_name.to_owned(), schemas: out, migrations, plugins, storage })
    }

    /// Runs the create hooks in chain order, each on the output of the one
    /// before: user plugins through `hooks.create`, the encryption plugin by
    /// sealing the encrypted fields, the migration plugin by recording the
    /// schema's version.
    pub fn run_create_hooks<C, R, M, S, O>(&self, hooks: &Hooks<C, R, M, S, O>, schema: &Schema, doc: Document) -> (r: Result<Document, DbError>)
        where
        C: Fn(PluginKind, Document) -> Result<Document, DbError>,
        R: Fn(PluginKind, Document) -> Result<Document, DbError>,
        M: Fn(u32, Document) -> Result<Document, DbError>,
        S: Fn(Value) -> Value,
        O: Fn(Value) -> Result<Value, DbError>,
        requires
            hooks.callable(),
        ensures
            r matches Ok(d) ==> hooks.creates(self.plugins@, *schema, doc, d),
            (forall|i: int| 0 <= i < self.plugins@.len() ==> !(#[trigger] self.plugins@[i] is User)) ==> r is Ok,
    {
        let ghost orig = doc;
        let mut d = doc;
        let ghost mut ds: Seq<Document> = seq![d];
        let mut i: usize = 0;
        while i < self.plugins.len()
            invariant
                0 <= i <= self.plugins.len(),
                hooks.callable(),
                ds.len() == i + 1,
                ds[0] == orig,
                orig == doc,
                ds.last() == d,
                forall|j: int| 0 <= j < i ==> #[trigger] created_step(hooks.create, hooks.seal, self.plugins@[j], *schema, ds[j], ds[j + 1]),
            decreases self.plugins.len() - i,
        {
            let kind = self.plugins[i];
            let next = match kind {
                PluginKind::Migration => stamp_version(schema, d),
                PluginKind::Encryption => encrypt_fields(&hooks.seal, schema, &d),
                PluginKind::User(_) => (hooks.create)(kind, d)?,
            };
            proof {
                let before = ds;
                ds = ds.push(next);
                assert forall|j: int| 0 <= j < i + 1 implies #[trigger] created_step(hooks.create, hooks.seal, self.plugins@[j], *schema, ds[j], ds[j + 1]) by {
                    if j < i {
                        assert(ds[j] == before[j] && ds[j + 1] == before[j + 1]);
                    }
                }
            }
            d = next;
            i = i + 1;
        }
        proof {
            assert(create_trace(hooks.create, hooks.seal, self.plugins@, *schema, ds));
        }
        Ok(d)
    }

    /// Runs the recover hooks in reverse chain order, each on the output of the
    /// one before: the migration plugin first, then the encryption plugin by
    /// opening the encrypted fields, then the user plugins through `hooks.recover`.
    pub fn run_recover_hooks<C, R, M, S, O>(&self, hooks: &Hooks<C, R, M, S, O>, collection: &str, schema: &Schema, doc: Document)
        -> (r: Result<Document, DbError>)
        where
        C: Fn(PluginKind, Document) -> Result<Document, DbError>,
        R: Fn(PluginKind, Document) -> Result<Document, DbError>,
        M: Fn(u32, Document) -> Result<Document, DbError>,
        S: Fn(Value) -> Value,
        O: Fn(Value) -> Result<Value, DbError>,
        requires
            hooks.callable(),
        ensures
            r matches Ok(d) ==> hooks.recovers(read_order(self.plugins@), *schema, doc, d),
            self.builtin_only() && (doc_version(doc.fields@) == Some(schema.version as int)
                || doc_version(doc.fields@) is None) ==> (r matches Ok(d) && d.fields@ == doc.fields@),
    {
        let empty: Vec<u32> = Vec::new();
        let available = match key_position(&self.migrations, collection) {
            Some(m) => &self.migrations[m].1,
            None => &empty,
        };
        let ghost order = read_order(self.plugins@);
        let ghost orig = doc;
        let mut d = doc;
        let ghost mut ds: Seq<Document> = seq![d];
        let n = self.plugins.len();
        let mut i: usize = 0;
        while i < n
            invariant
                0 <= i <= n,
                n == self.plugins@.len(),
                order == read_order(self.plugins@),
                hooks.callable(),
                ds.len() == i + 1,
                ds[0] == orig,
            orig == doc,
                ds.last() == d,
                forall|j: int| 0 <= j < i ==> #[trigger] recovered_step(hooks.recover, hooks.migrate, hooks.open, order[j], *schema, ds[j], ds[j + 1]),
                self.builtin_only() && (doc_version(orig.fields@) == Some(schema.version as int)
                    || doc_version(orig.fields@) is None) ==> d.fields@ == orig.fields@,
            decreases n - i,
        {
            let kind = self.plugins[n - 1 - i];
            let next = match kind {
                PluginKind::Migration => {
                    let ghost before = d;
                    let res = migrate_doc(&hooks.migrate, schema, available, d);
                    proof {
                        if self.builtin_only() && (doc_version(orig.fields@) == Some(schema.version as int)
                            || doc_version(orig.fields@) is None) {
                            assert(before.fields@ == orig.fields@);
                            assert(doc_version(before.fields@) == doc_version(orig.fields@));
                        }
                    }
                    res?
                },
                PluginKind::Encryption => decrypt_fields(&hooks.open, schema, &d)?,
                PluginKind::User(_) => (hooks.recover)(kind, d)?,
            };
            proof {
                let before = ds;
                ds = ds.push(next);
                assert(order[i as int] == kind);
                assert forall|j: int| 0 <= j < i + 1 implies #[trigger] recovered_step(hooks.recover, hooks.migrate, hooks.open, order[j], *schema, ds[j], ds[j + 1]) by {
                    if j < i {
                        assert(ds[j] == before[j] && ds[j + 1] == before[j + 1]);
                    }
                }
            }
            d = next;
            i = i + 1;
        }
        proof {
            assert(recover_trace(hooks.recover, hooks.migrate, hooks.open, order, *schema, ds));
        }
        Ok(d)
    }

    /// Writes through the pipeline. A created or updated document is validated
    /// against its collection's schema, passed through the create hooks in
    /// chain order, stored, and passed back through the recover hooks in
    /// reverse order. A delete goes to the backend with the raw primary key.
    pub fn write<C, R, M, S, O>(&mut self, hooks: &Hooks<C, R, M, S, O>, op: Operation) -> (r: Result<WriteResult, DbError>)
        where
            C: Fn(PluginKind, Document) -> Result<Document, DbError>,
            R: Fn(PluginKind, Document) -> Result<Document, DbError>,
            M: Fn(u32, Document) -> Result<Document, DbError>,
            S: Fn(Value) -> Value,
            O: Fn(Value) -> Result<Value, DbError>,
        requires
            old(self).wf(),
            hooks.callable(),
        ensures
            final(self).wf(),
            final(self).schemas@ == old(self).schemas@,
            final(self).plugins@ == old(self).plugins@,
            final(self).migrations@ == old(self).migrations@,
            match old(self).schema_of(op.collection@) {
                None => r == Err::<WriteResult, DbError>(DbError::ValidationError)
                    && final(self).storage.view() == old(self).storage.view(),
                Some(s) => match (op.op_type, op.data) {
                    (OpType::Create, OpData::Doc(d)) | (OpType::Update, OpData::Doc(d)) => {
                        &&& !s.accepts(d.fields@) ==> r == Err::<WriteResult, DbError>(DbError::ValidationError)
                            && final(self).storage.view() == old(self).storage.view()
                        &&& s.accepts(d.fields@) && r is Ok ==> exists|a: Document, w: Document| a.fields@ == d.fields@
                            && #[trigger] hooks.creates(old(self).plugins@, s, a, w)
                            && doc_version(w.fields@) == Some(s.version as int)
                            && key_of(w.fields@, s.primary_key@) is Some
                            && final(self).storage.view() == upserted(old(self).storage.view(), op.collection@,
                                key_of(w.fields@, s.primary_key@).unwrap(), w.fields@)
                            && (r matches Ok(WriteResult::Written(out)) ==> exists|b: Document| b.fields@ == w.fields@
                                && #[trigger] hooks.recovers(read_order(old(self).plugins@), s, b, out))
                        &&& s.accepts(d.fields@) && old(self).builtin_only() && s.primary_key@ != version_field() ==>
                            (r matches Ok(WriteResult::Written(w))
                            && field_set(d.fields@, w.fields@, version_field(), Value::Number(s.version as i64))
                            && key_of(w.fields@, s.primary_key@) == key_of(d.fields@, s.primary_key@)
                            && final(self).storage.view() == upserted(old(self).storage.view(), op.collection@,
                                key_of(d.fields@, s.primary_key@).unwrap(), w.fields@))
                    },
                    (OpType::Delete, OpData::Key(k)) => r matches Ok(WriteResult::Deleted)
                        && final(self).storage.view() == removed(old(self).storage.view(), op.collection@, k@),
                    (OpType::Create, _) | (OpType::Update, _) | (OpType::Delete, _) =>
                        r == Err::<WriteResult, DbError>(DbError::ValidationError)
                        && final(self).storage.view() == old(self).storage.view(),
                    _ => r == Err::<WriteResult, DbError>(DbError::UnsupportedOperation)
                        && final(self).storage.view() == old(self).storage.view(),
                },
            },
    {
        let si = match key_position(&self.schemas, op.collection.as_str()) {
            Some(si) => si,
            None => return Err(DbError::ValidationError),
        };
        proof {
            assert(self.schemas@[si as int].1.wf());
        }
        let Operation { collection, op_type, data, indexes } = op;
        match op_type {
            OpType::Create | OpType::Update => {
                let d = match data {
                    OpData::Doc(d) => d,
                    _ => return Err(DbError::ValidationError),
                };
                let schema = &self.schemas[si].1;
                let valid = schema.validate_schema(&d)?;
                let ghost a = valid;
                let hooked = self.run_create_hooks(hooks, schema, valid)?;
                let ghost w = hooked;
                proof {
                    lemma_creates_stamps(*hooks, self.plugins@, *schema, a, hooked);
                    if self.builtin_only() {
                        let ds = choose|ds: Seq<Document>| #[trigger] create_trace(hooks.create, hooks.seal, self.plugins@, *schema, ds)
                            && ds[0] == a && ds.last() == hooked;
                        assert(created_step(hooks.create, hooks.seal, self.plugins@[0], *schema, ds[0], ds[1]));
                        if schema.primary_key@ != version_field() {
                            crate::value::lemma_field_set(d.fields@, hooked.fields@, version_field(),
                                Value::Number(schema.version as i64));
                        }
                    }
                }
                let pk = schema.primary_key.clone();
                let stored = self.storage.write(
                    Operation { collection: collection.clone(), op_type, data: OpData::Doc(hooked), indexes },
                    pk.as_str(),
                )?;
                match stored {
                    WriteResult::Written(back) => {
                        let schema = &self.schemas[si].1;
                        let ghost b = back;
                        let out = self.run_recover_hooks(hooks, collection.as_str(), schema, back)?;
                        proof {
                            assert(hooks.recovers(read_order(self.plugins@), *schema, b, out));
                            assert(hooks.creates(self.plugins@, *schema, a, w));
                        }
                        Ok(WriteResult::Written(out))
                    },
                    WriteResult::Deleted => Ok(WriteResult::Deleted),
                }
            },
            OpType::Delete => {
                let k = match data {
                    OpData::Key(k) => k,
                    _ => return Err(DbError::ValidationError),
                };
                let pk = self.schemas[si].1.primary_key.clone();
                self.storage.write(Operation { collection, op_type, data: OpData::Key(k), indexes }, pk.as_str())
            },
            _ => Err(DbError::UnsupportedOperation),
        }
    }

    /// The document of collection `c` with primary key `pk`, passed through the
    /// recover hooks.
    pub fn find_by_id<C, R, M, S, O>(&self, hooks: &Hooks<C, R, M, S, O>, c: &str, pk: &str) -> (r: Result<Document, DbError>)
        where
            C: Fn(PluginKind, Document) -> Result<Document, DbError>,
            R: Fn(PluginKind, Document) -> Result<Document, DbError>,
            M: Fn(u32, Document) -> Result<Document, DbError>,
            S: Fn(Value) -> Value,
            O: Fn(Value) -> Result<Value, DbError>,
        requires
            self.wf(),
            hooks.callable(),
        ensures
            self.schema_of(c@) is None ==> r == Err::<Document, DbError>(DbError::ValidationError),
            self.schema_of(c@) is Some && entry_index(self.storage.view(), c@, pk@) is None ==>
                r == Err::<Document, DbError>(DbError::NotFound),
            self.schema_of(c@) is Some && entry_index(self.storage.view(), c@, pk@) is Some && r is Ok ==>
                self.recovered_from(*hooks, self.schema_of(c@).unwrap(),
                    self.storage.view()[entry_index(self.storage.view(), c@, pk@).unwrap()].2, r->Ok_0),
            ({
                let i = entry_index(self.storage.view(), c@, pk@).unwrap();
                self.schema_of(c@) is Some && entry_index(self.storage.view(), c@, pk@) is Some
                    && self.builtin_only()
                    && doc_version(self.storage.view()[i].2) == Some(self.schema_of(c@).unwrap().version as int) ==>
                    (r matches Ok(d) && d.fields@ == self.storage.view()[i].2)
            }),
    {
        let si = match key_position(&self.schemas, c) {
            Some(si) => si,
            None => return Err(DbError::ValidationError),
        };
        let d = self.storage.find_document_by_id(c, pk)?;
        let ghost b = d;
        let r = self.run_recover_hooks(hooks, c, &self.schemas[si].1, d);
        proof {
            if r is Ok {
                assert(hooks.recovers(read_order(self.plugins@), self.schemas@[si as int].1, b, r->Ok_0));
            }
        }
        r
    }

    /// The documents of collection `c` that satisfy the query, passed through
    /// the recover hooks, in storage order.
    pub fn find<C, R, M, S, O>(&self, hooks: &Hooks<C, R, M, S, O>, c: &str, query: RawQuery) -> (r: Result<Vec<Document>, DbError>)
        where
            C: Fn(PluginKind, Document) -> Result<Document, DbError>,
            R: Fn(PluginKind, Document) -> Result<Document, DbError>,
            M: Fn(u32, Document) -> Result<Document, DbError>,
            S: Fn(Value) -> Value,
            O: Fn(Value) -> Result<Value, DbError>,
        requires
            self.wf(),
            hooks.callable(),
        ensures
            self.schema_of(c@) is None ==> r == Err::<Vec<Document>, DbError>(DbError::ValidationError),
            self.schema_of(c@) is Some && !parsable(self.schema_of(c@).unwrap().properties@, query) ==>
                r == Err::<Vec<Document>, DbError>(DbError::QueryError),
            ({
                let s = self.schema_of(c@).unwrap();
                let es = self.storage.view();
                self.schema_of(c@) is Some && r is Ok ==> exists|n: QueryNode| #[trigger] query_parses(s.properties@, query, n)
                    && r->Ok_0@.len() == found(es, c@, n, es.len() as int).len()
                    && forall|j: int| 0 <= j < r->Ok_0@.len() ==> self.recovered_from(*hooks, s,
                        found(es, c@, n, es.len() as int)[j], #[trigger] r->Ok_0@[j])
            }),
            ({
                let s = self.schema_of(c@).unwrap();
                let es = self.storage.view();
                self.schema_of(c@) is Some && parsable(s.properties@, query) && self.builtin_only()
                    && (forall|i: int| 0 <= i < es.len() ==> doc_version(#[trigger] es[i].2) == Some(s.version as int)) ==>
                    (r is Ok && exists|n: QueryNode| query_parses(s.properties@, query, n)
                        && docs_view(r->Ok_0@) == found(es, c@, n, es.len() as int))
            }),
    {
        let si = match key_position(&self.schemas, c) {
            Some(si) => si,
            None => return Err(DbError::ValidationError),
        };
        let schema = &self.schemas[si].1;
        let q = parse_query(query, &schema.properties)?;
        let docs = self.storage.find(c, &q);
        let ghost es = self.storage.view();
        proof {
            lemma_found_from_store(es, c@, q, es.len() as int);
        }
        let mut out: Vec<Document> = Vec::new();
        let mut docs = docs;
        let ghost all = docs@;
        let total = docs.len();
        let mut i: usize = 0;
        proof {
            assert(docs@.skip(0) =~= docs@);
        }
        while docs.len() > 0
            invariant
                docs@ == all.skip(i as int),
                hooks.callable(),
                out@.len() == i,
                forall|j: int| 0 <= j < i ==> self.recovered_from(*hooks, *schema, docs_view(all)[j], #[trigger] out@[j]),
                self.schema_of(c@) == Some(*schema),
                parsable(schema.properties@, query),
                query_parses(schema.properties@, query, q),
                all.len() == total,
                i + docs@.len() == total,
                docs_view(all) == found(es, c@, q, es.len() as int),
                es == self.storage.view(),
                forall|j: int| 0 <= j < total ==> exists|k: int| 0 <= k < es.len() && (#[trigger] docs_view(all)[j]) == es[k].2,
                self.builtin_only() && (forall|k: int| 0 <= k < es.len() ==>
                    doc_version(#[trigger] es[k].2) == Some(schema.version as int)) ==>
                    docs_view(out@) == docs_view(all).take(i as int),
            decreases docs@.len(),
        {
            let d = docs.remove(0);
            proof {
                assert(all[i as int] == d);
                assert(docs_view(all)[i as int] == d.fields@);
            }
            let ghost b = d;
            let rd = self.run_recover_hooks(hooks, c, schema, d)?;
            proof {
                assert(hooks.recovers(read_order(self.plugins@), *schema, b, rd));
                assert(self.recovered_from(*hooks, *schema, docs_view(all)[i as int], rd));
            }
            let ghost prev = out@;
            out.push(rd);
            proof {
                assert forall|j: int| 0 <= j < i + 1 implies self.recovered_from(*hooks, *schema, docs_view(all)[j], #[trigger] out@[j]) by {
                    if j < i {
                        assert(out@[j] == prev[j]);
                    }
                }
            }
            proof {
                assert(docs@ =~= all.skip(i + 1));
                if self.builtin_only() && (forall|k: int| 0 <= k < es.len() ==>
                    doc_version(#[trigger] es[k].2) == Some(schema.version as int)) {
                    let k = choose|k: int| 0 <= k < es.len() && docs_view(all)[i as int] == es[k].2;
                    assert(doc_version(es[k].2) == Some(schema.version as int));
                    assert(docs_view(out@) =~= docs_view(all).take(i + 1));
                }
            }
            i = i + 1;
        }
        proof {
            assert(docs_view(all).take(total as int) =~= docs_view(all));
            let fd = found(es, c@, q, es.len() as int);
            assert(docs_view(all).len() == all.len());
            assert(out@.len() == fd.len());
            assert forall|j: int| 0 <= j < out@.len() implies self.recovered_from(*hooks, *schema, fd[j], #[trigger] out@[j]) by {
                assert(docs_view(all)[j] == fd[j]);
            }
            assert(query_parses(schema.properties@, query, q));
            let sc = self.schema_of(c@).unwrap();
            assert(sc == *schema);
            assert forall|j: int| 0 <= j < out@.len() implies self.recovered_from(*hooks, sc,
                found(es, c@, q, es.len() as int)[j], #[trigger] out@[j]) by {
                assert(self.recovered_from(*hooks, *schema, fd[j], out@[j]));
            }
            assert(query_parses(sc.properties@, query, q));
            if self.builtin_only() && (forall|k: int| 0 <= k < es.len() ==>
                doc_version(#[trigger] es[k].2) == Some(schema.version as int)) {
                assert(docs_view(out@) == fd);
                assert(exists|n: QueryNode| query_parses(schema.properties@, query, n)
                    && docs_view(out@) == found(es, c@, n, es.len() as int));
            }
        }
        Ok(out)
    }

    /// How many documents of collection `c` satisfy the query.
    pub fn count(&self, c: &str, query: RawQuery) -> (r: Result<usize, DbError>)
        requires
            self.wf(),
        ensures
            self.schema_of(c@) is None ==> r == Err::<usize, DbError>(DbError::ValidationError),
            self.schema_of(c@) matches Some(s) ==> {
                &&& !parsable(s.properties@, query) ==> r == Err::<usize, DbError>(DbError::QueryError)
                &&& parsable(s.properties@, query) ==> (r matches Ok(k) && exists|n: QueryNode|
                    query_parses(s.properties@, query, n) && k == counted(self.storage.view(), c@, n,
                        self.storage.view().len() as int))
            },
    {
        let si = match key_position(&self.schemas, c) {
            Some(si) => si,
            None => return Err(DbError::ValidationError),
        };
        let q = parse_query(query, &self.schemas[si].1.properties)?;
        Ok(self.storage.count(c, &q))
    }

    /// The names of the collections, in order.
    pub fn collections(&self) -> (r: Vec<String>)
        ensures
            r@.len() == self.schemas@.len(),
            forall|i: int| 0 <= i < r@.len() ==> (#[trigger] r@[i])@ == self.schemas@[i].0@,
    {
        let mut out: Vec<String> = Vec::new();
        let mut i: usize = 0;
        while i < self.schemas.len()
            invariant
                0 <= i <= self.schemas.len(),
                out@.len() == i,
                forall|j: int| 0 <= j < i ==> (#[trigger] out@[j])@ == self.schemas@[j].0@,
            decreases self.schemas.len() - i,
        {
            out.push(self.schemas[i].0.clone());
            i = i + 1;
        }
        out
    }
}

} // verus!
