use vstd::prelude::*;
use crate::error::DbError;
use crate::schema::Schema;
use crate::value::{Value, Document, field_of, field_set, lemma_field_set, str_eq};

verus! {

/// A plugin of the chain: one supplied by the user (by its position among
/// them), the encryption plugin, or the migration plugin.
#[derive(Debug, Clone, Copy, PartialEq, Eq, Structural)]
pub enum PluginKind {
    User(u64),
    Encryption,
    Migration,
}

/// The work done outside the library, as closures: the user plugins' create
/// and recover hooks (`create`, `recover`, called with the plugin's place in the
/// chain), the user's migration function to a version (`migrate`), and the
/// encryption plugin's cipher, which seals one plaintext value under a fresh
/// nonce (`seal`) and opens one sealed value (`open`).
pub struct Hooks<C, R, M, S, O> {
    pub create: C,
    pub recover: R,
    pub migrate: M,
    pub seal: S,
    pub open: O,
}

impl<C, R, M, S, O> Hooks<C, R, M, S, O> where
    C: Fn(PluginKind, Document) -> Result<Document, DbError>,
    R: Fn(PluginKind, Document) -> Result<Document, DbError>,
    M: Fn(u32, Document) -> Result<Document, DbError>,
    S: Fn(Value) -> Value,
    O: Fn(Value) -> Result<Value, DbError>,
{
    /// Every closure may be called on any argument.
    pub open spec fn callable(&self) -> bool {
        &&& forall|k: PluginKind, d: Document| #[trigger] self.create.requires((k, d))
        &&& forall|k: PluginKind, d: Document| #[trigger] self.recover.requires((k, d))
        &&& forall|v: u32, d: Document| #[trigger] self.migrate.requires((v, d))
        &&& forall|v: Value| #[trigger] self.seal.requires((v,))
        &&& forall|v: Value| #[trigger] self.open.requires((v,))
    }

    /// Whether the create hooks of `chain`, run in order on `a`, each on the
    /// previous hook's output, end in `b`.
    pub open spec fn creates(&self, chain: Seq<PluginKind>, schema: Schema, a: Document, b: Document) -> bool {
        exists|ds: Seq<Document>| #[trigger] create_trace(self.create, self.seal, chain, schema, ds) && ds[0] == a
            && ds.last() == b
    }

    /// Whether the recover hooks of `order`, run in that order on `a`, each on
    /// the previous hook's output, end in `b`.
    pub open spec fn recovers(&self, order: Seq<PluginKind>, schema: Schema, a: Document, b: Document) -> bool {
        exists|ds: Seq<Document>| #[trigger] recover_trace(self.recover, self.migrate, self.open, order, schema, ds)
            && ds[0] == a && ds.last() == b
    }
}

/// The user plugins as chain entries, in order.
pub open spec fn user_kinds(n: nat) -> Seq<PluginKind>
    decreases n,
{
    if n == 0 {
        Seq::empty()
    } else {
        user_kinds((n - 1) as nat).push(PluginKind::User((n - 1) as u64))
    }
}

/// The chain in write order: user plugins, encryption when a password is set, migration last.
pub open spec fn plugin_order(n_user: nat, encrypted: bool) -> Seq<PluginKind> {
    user_kinds(n_user) + (if encrypted { seq![PluginKind::Encryption] } else { Seq::empty() })
        + seq![PluginKind::Migration]
}

/// The order in which recover hooks run: the write order reversed.
pub open spec fn read_order(chain: Seq<PluginKind>) -> Seq<PluginKind> {
    Seq::new(chain.len(), |i: int| chain[chain.len() - 1 - i])
}

pub proof fn lemma_user_kinds(n: nat)
    ensures
        user_kinds(n).len() == n,
        forall|i: int| 0 <= i < n ==> #[trigger] user_kinds(n)[i] == PluginKind::User(i as u64),
    decreases n,
{
    if n > 0 {
        lemma_user_kinds((n - 1) as nat);
    }
}

/// Builds the plugin chain for `n_user` user plugins, with the encryption plugin
/// when a password is given.
pub fn plugin_chain(n_user: u64, encrypted: bool) -> (r: Vec<PluginKind>)
    requires
        n_user < usize::MAX - 2,
    ensures
        r@ == plugin_order(n_user as nat, encrypted),
{
    let mut out: Vec<PluginKind> = Vec::new();
    let mut i: u64 = 0;
    while i < n_user
        invariant
            i <= n_user,
            out@ == user_kinds(i as nat),
        decreases n_user - i,
    {
        out.push(PluginKind::User(i));
        i = i + 1;
    }
    if encrypted {
        out.push(PluginKind::Encryption);
    }
    out.push(PluginKind::Migration);
    proof {
        assert(out@ =~= plugin_order(n_user as nat, encrypted));
    }
    out
}

/// The migration plugin transforms last on write and first on read; when
/// encryption is enabled it transforms just before migration on write and just
/// after it on read; user plugins come first on write and last on read, in order.
pub proof fn lemma_chain_order(n_user: nat, encrypted: bool)
    ensures
        ({
            let c = plugin_order(n_user, encrypted);
            let rd = read_order(c);
            &&& c.last() == PluginKind::Migration
            &&& rd[0] == PluginKind::Migration
            &&& encrypted ==> c[c.len() - 2] == PluginKind::Encryption && rd[1] == PluginKind::Encryption
            &&& c.len() == n_user + (if encrypted { 2nat } else { 1nat })
            &&& forall|i: int| 0 <= i < n_user ==> #[trigger] c[i] == PluginKind::User(i as u64)
                && rd[c.len() - 1 - i] == PluginKind::User(i as u64)
            &&& forall|i: int| 0 <= i < c.len() - 1 ==> c[i] != PluginKind::Migration
        }),
{
    lemma_user_kinds(n_user);
    let c = plugin_order(n_user, encrypted);
    let u = user_kinds(n_user);
    if encrypted {
        assert(c =~= u + seq![PluginKind::Encryption, PluginKind::Migration]);
    } else {
        assert(c =~= u + seq![PluginKind::Migration]);
    }
}

/// The name of the field that holds a document's schema version.
pub open spec fn version_field() -> Seq<char> {
    "version"@
}

/// The version recorded in a document: the number in its `version` field, if any.
pub open spec fn doc_version(fields: Seq<(String, Value)>) -> Option<int> {
    match field_of(fields, version_field()) {
        Some(Value::Number(n)) => Some(n as int),
        _ => None,
    }
}

/// The migration plugin's create hook: records the schema's version in the document.
pub fn stamp_version(schema: &Schema, doc: Document) -> (r: Document)
    ensures
        field_set(doc.fields@, r.fields@, version_field(), Value::Number(schema.version as i64)),
        doc_version(r.fields@) == Some(schema.version as int),
{
    proof {
        reveal_strlit("version");
    }
    let mut d = doc;
    let name = "version".to_owned();
    d.set(name, Value::Number(schema.version as i64));
    proof {
        lemma_field_set(doc.fields@, d.fields@, "version"@, Value::Number(schema.version as i64));
    }
    d
}

/// Whether a migration function exists for each version in `from + 1 ..= to`.
pub open spec fn steps_available(from: int, to: int, available: Seq<u32>) -> bool {
    from >= to || (from >= 0 && forall|v: u32| from < v <= to ==> #[trigger] available.contains(v))
}

/// The versions a document at version `from` goes through to reach `to`, in order.
pub open spec fn steps_needed(from: int, to: int) -> Seq<u32> {
    Seq::new(if to > from { (to - from) as nat } else { 0 }, |i: int| (from + 1 + i) as u32)
}

/// Decides whether `v` is listed.
pub fn has_version(available: &Vec<u32>, v: u32) -> (r: bool)
    ensures
        r == available@.contains(v),
{
    let mut i: usize = 0;
    while i < available.len()
        invariant
            0 <= i <= available.len(),
            forall|k: int| 0 <= k < i ==> available@[k] != v,
        decreases available.len() - i,
    {
        if available[i] == v {
            return true;
        }
        i = i + 1;
    }
    false
}

/// The migration steps that bring a document at version `from` to version
/// `to`, given the versions that have a migration function; fails when one is
/// missing.
pub fn migration_steps(from: i64, to: u32, available: &Vec<u32>) -> (r: Result<Vec<u32>, DbError>)
    ensures
        r is Ok <==> steps_available(from as int, to as int, available@),
        r matches Ok(s) ==> s@ == steps_needed(from as int, to as int),
        r is Err ==> r == Err::<Vec<u32>, DbError>(DbError::MigrationError),
{
    let mut out: Vec<u32> = Vec::new();
    if from >= to as i64 {
        proof {
            assert(out@ =~= steps_needed(from as int, to as int));
        }
        return Ok(out);
    }
    if from < 0 {
        return Err(DbError::MigrationError);
    }
    let mut v: u32 = (from + 1) as u32;
    while v <= to
        invariant
            from < v,
            from + 1 <= v <= to as int + 1,
            out@ == steps_needed(from as int, v - 1),
            from >= 0,
            forall|w: u32| from < w < v ==> #[trigger] available@.contains(w),
        decreases to as int + 1 - v,
    {
        if !has_version(available, v) {
            return Err(DbError::MigrationError);
        }
        out.push(v);
        proof {
            assert(out@ =~= steps_needed(from as int, v as int));
        }
        if v == to {
            return Ok(out);
        }
        v = v + 1;
    }
    Ok(out)
}

/// Whether `ds` traces the migration functions `m` run through `steps` in
/// order: `ds[0]` is the input, and each step gets the previous output.
pub open spec fn migration_trace<M: Fn(u32, Document) -> Result<Document, DbError>>(m: M, steps: Seq<u32>,
    ds: Seq<Document>) -> bool {
    &&& ds.len() == steps.len() + 1
    &&& forall|i: int| 0 <= i < steps.len() ==> #[trigger] m.ensures((steps[i], ds[i]), Ok::<Document, DbError>(ds[i + 1]))
}

/// Whether `out` is what the migration plugin's recover hook makes of `d`: a
/// document below the schema's version goes through the migration functions
/// of the versions above its own, in order, and then records the schema's
/// version; any other document is left as it is.
pub open spec fn migrated<M: Fn(u32, Document) -> Result<Document, DbError>>(m: M, schema: Schema, d: Document,
    out: Seq<(String, Value)>) -> bool {
    if needs_migration(schema, d.fields@) {
        exists|ds: Seq<Document>| #[trigger] migration_trace(m, steps_needed(doc_version(d.fields@).unwrap(),
            schema.version as int), ds) && ds[0] == d
            && field_set(ds.last().fields@, out, version_field(), Value::Number(schema.version as i64))
    } else {
        out == d.fields@
    }
}

/// Whether a document records a version below the schema's.
pub open spec fn needs_migration(schema: Schema, fields: Seq<(String, Value)>) -> bool {
    match doc_version(fields) {
        Some(v) => v < schema.version,
        None => false,
    }
}

/// The migration plugin's recover hook: runs the user's migration functions
/// for each missing version, in order, and records the schema's version. A
/// document at the schema's version, or without a version, is handed back as
/// it is.
pub fn migrate_doc<M: Fn(u32, Document) -> Result<Document, DbError>>(migrate: &M, schema: &Schema,
    available: &Vec<u32>, doc: Document) -> (r: Result<Document, DbError>)
    requires
        forall|v: u32, d: Document| #[trigger] migrate.requires((v, d)),
    ensures
        r matches Ok(d) ==> migrated(*migrate, *schema, doc, d.fields@),
        needs_migration(*schema, doc.fields@) && !steps_available(doc_version(doc.fields@).unwrap(),
            schema.version as int, available@) ==> r == Err::<Document, DbError>(DbError::MigrationError),
        !needs_migration(*schema, doc.fields@) ==> (r matches Ok(d) && d.fields@ == doc.fields@),
{
    proof {
        reveal_strlit("version");
    }
    let from = match doc.get("version") {
        Some(Value::Number(n)) => n,
        _ => return Ok(doc),
    };
    if from >= schema.version as i64 {
        return Ok(doc);
    }
    let steps = migration_steps(from, schema.version, available)?;
    let ghost orig = doc;
    let mut d = doc;
    let ghost mut ds: Seq<Document> = seq![d];
    let mut i: usize = 0;
    while i < steps.len()
        invariant
            0 <= i <= steps.len(),
            forall|v: u32, e: Document| #[trigger] migrate.requires((v, e)),
            ds.len() == i + 1,
            ds[0] == orig,
            orig == doc,
            ds.last() == d,
            doc_version(orig.fields@) == Some(from as int),
            from < schema.version,
            steps_available(from as int, schema.version as int, available@),
            forall|j: int| 0 <= j < i ==> #[trigger] migrate.ensures((steps@[j], ds[j]), Ok::<Document, DbError>(ds[j + 1])),
        decreases steps.len() - i,
    {
        let ghost before = ds;
        let next = migrate(steps[i], d)?;
        proof {
            ds = ds.push(next);
            assert forall|j: int| 0 <= j < i + 1 implies #[trigger] migrate.ensures((steps@[j], ds[j]), Ok::<Document, DbError>(ds[j + 1])) by {
                if j < i {
                    assert(ds[j] == before[j] && ds[j + 1] == before[j + 1]);
                }
            }
        }
        d = next;
        i = i + 1;
    }
    let out = stamp_version(schema, d);
    proof {
        assert(migration_trace(*migrate, steps@, ds));
        assert(steps@ == steps_needed(from as int, schema.version as int));
    }
    Ok(out)
}

/// Whether `name` is one of the schema's encrypted fields.
pub open spec fn is_encrypted(schema: Schema, name: Seq<char>) -> bool {
    exists|i: int| 0 <= i < schema.encrypted@.len() && (#[trigger] schema.encrypted@[i])@ == name
}

/// Whether `b` is `a` with each encrypted field sealed by `seal` and every
/// other field unchanged, in the same order.
pub open spec fn sealed<S: Fn(Value) -> Value>(seal: S, schema: Schema, a: Seq<(String, Value)>,
    b: Seq<(String, Value)>) -> bool {
    &&& a.len() == b.len()
    &&& forall|i: int| 0 <= i < a.len() ==> (#[trigger] b[i]).0 == a[i].0 && (if is_encrypted(schema, a[i].0@) {
        seal.ensures((a[i].1,), b[i].1)
    } else {
        b[i].1 == a[i].1
    })
}

/// Whether `b` is `a` with each encrypted field opened by `open` and every
/// other field unchanged, in the same order.
pub open spec fn opened<O: Fn(Value) -> Result<Value, DbError>>(open: O, schema: Schema, a: Seq<(String, Value)>,
    b: Seq<(String, Value)>) -> bool {
    &&& a.len() == b.len()
    &&& forall|i: int| 0 <= i < a.len() ==> (#[trigger] b[i]).0 == a[i].0 && (if is_encrypted(schema, a[i].0@) {
        open.ensures((a[i].1,), Ok::<Value, DbError>(b[i].1))
    } else {
        b[i].1 == a[i].1
    })
}

/// Decides whether `name` is one of the schema's encrypted fields.
pub fn encrypted_name(schema: &Schema, name: &str) -> (r: bool)
    ensures
        r == is_encrypted(*schema, name@),
{
    let mut i: usize = 0;
    while i < schema.encrypted.len()
        invariant
            0 <= i <= schema.encrypted.len(),
            forall|j: int| 0 <= j < i ==> (#[trigger] schema.encrypted@[j])@ != name@,
        decreases schema.encrypted.len() - i,
    {
        if str_eq(schema.encrypted[i].as_str(), name) {
            return true;
        }
        i = i + 1;
    }
    false
}

/// The encryption plugin's create hook: seals each encrypted field with the
/// cipher and passes every other field through.
pub fn encrypt_fields<S: Fn(Value) -> Value>(seal: &S, schema: &Schema, doc: &Document) -> (r: Document)
    requires
        forall|v: Value| #[trigger] seal.requires((v,)),
    ensures
        sealed(*seal, *schema, doc.fields@, r.fields@),
{
    let mut out: Vec<(String, Value)> = Vec::new();
    let mut i: usize = 0;
    while i < doc.fields.len()
        invariant
            0 <= i <= doc.fields.len(),
            forall|v: Value| #[trigger] seal.requires((v,)),
            out@.len() == i,
            forall|j: int| 0 <= j < i ==> (#[trigger] out@[j]).0 == doc.fields@[j].0 && (if is_encrypted(*schema, doc.fields@[j].0@) {
                seal.ensures((doc.fields@[j].1,), out@[j].1)
            } else {
                out@[j].1 == doc.fields@[j].1
            }),
        decreases doc.fields.len() - i,
    {
        let k = doc.fields[i].0.clone();
        let v = doc.fields[i].1.clone();
        let nv = if encrypted_name(schema, k.as_str()) { seal(v) } else { v };
        out.push((k, nv));
        i = i + 1;
    }
    Document { fields: out }
}

/// The encryption plugin's recover hook: opens each encrypted field with the
/// cipher and passes every other field through; a field that fails to open
/// makes the whole read fail.
pub fn decrypt_fields<O: Fn(Value) -> Result<Value, DbError>>(open: &O, schema: &Schema, doc: &Document)
    -> (r: Result<Document, DbError>)
    requires
        forall|v: Value| #[trigger] open.requires((v,)),
    ensures
        r matches Ok(d) ==> opened(*open, *schema, doc.fields@, d.fields@),
        r is Err ==> r == Err::<Document, DbError>(DbError::EncryptionError),
{
    let mut out: Vec<(String, Value)> = Vec::new();
    let mut i: usize = 0;
    while i < doc.fields.len()
        invariant
            0 <= i <= doc.fields.len(),
            forall|v: Value| #[trigger] open.requires((v,)),
            out@.len() == i,
            forall|j: int| 0 <= j < i ==> (#[trigger] out@[j]).0 == doc.fields@[j].0 && (if is_encrypted(*schema, doc.fields@[j].0@) {
                open.ensures((doc.fields@[j].1,), Ok::<Value, DbError>(out@[j].1))
            } else {
                out@[j].1 == doc.fields@[j].1
            }),
        decreases doc.fields.len() - i,
    {
        let k = doc.fields[i].0.clone();
        let v = doc.fields[i].1.clone();
        let nv = if encrypted_name(schema, k.as_str()) {
            match open(v) {
                Ok(p) => p,
                Err(_) => return Err(DbError::EncryptionError),
            }
        } else {
            v
        };
        out.push((k, nv));
        i = i + 1;
    }
    Ok(Document { fields: out })
}

/// Whether `b` is what plugin `kind`'s create hook makes of `a`.
pub open spec fn created_step<C: Fn(PluginKind, Document) -> Result<Document, DbError>, S: Fn(Value) -> Value>(
    create: C, seal: S, kind: PluginKind, schema: Schema, a: Document, b: Document) -> bool {
    match kind {
        PluginKind::User(_) => create.ensures((kind, a), Ok::<Document, DbError>(b)),
        PluginKind::Encryption => sealed(seal, schema, a.fields@, b.fields@),
        PluginKind::Migration => field_set(a.fields@, b.fields@, version_field(), Value::Number(schema.version as i64)),
    }
}

/// Whether `ds` traces the create hooks of `chain` run in order: `ds[0]` is the
/// input, and each hook gets the previous hook's output.
pub open spec fn create_trace<C: Fn(PluginKind, Document) -> Result<Document, DbError>, S: Fn(Value) -> Value>(
    create: C, seal: S, chain: Seq<PluginKind>, schema: Schema, ds: Seq<Document>) -> bool {
    &&& ds.len() == chain.len() + 1
    &&& forall|i: int| 0 <= i < chain.len() ==> #[trigger] created_step(create, seal, chain[i], schema, ds[i], ds[i + 1])
}

/// Whether `b` is what plugin `kind`'s recover hook makes of `a`.
pub open spec fn recovered_step<R: Fn(PluginKind, Document) -> Result<Document, DbError>,
    M: Fn(u32, Document) -> Result<Document, DbError>, O: Fn(Value) -> Result<Value, DbError>>(
    recover: R, migrate: M, open: O, kind: PluginKind, schema: Schema, a: Document, b: Document) -> bool {
    match kind {
        PluginKind::User(_) => recover.ensures((kind, a), Ok::<Document, DbError>(b)),
        PluginKind::Encryption => opened(open, schema, a.fields@, b.fields@),
        PluginKind::Migration => migrated(migrate, schema, a, b.fields@),
    }
}

/// Whether `ds` traces the recover hooks of `order` run in that order.
pub open spec fn recover_trace<R: Fn(PluginKind, Document) -> Result<Document, DbError>,
    M: Fn(u32, Document) -> Result<Document, DbError>, O: Fn(Value) -> Result<Value, DbError>>(
    recover: R, migrate: M, open: O, order: Seq<PluginKind>, schema: Schema, ds: Seq<Document>) -> bool {
    &&& ds.len() == order.len() + 1
    &&& forall|i: int| 0 <= i < order.len() ==> #[trigger] recovered_step(recover, migrate, open, order[i], schema, ds[i], ds[i + 1])
}

} // verus!
