use ridb::database::Database;
use ridb::error::DbError;
use ridb::memory::{Entry, OpData, OpType, Operation, WriteResult};
use ridb::plugin::{Hooks, PluginKind};
use ridb::query::{Operand, RawClause, RawQuery};
use ridb::schema::{PropType, Property, RawSchema};
use ridb::value::{Document, Value};

type DocHook = fn(PluginKind, Document) -> Result<Document, DbError>;
type StepHook = fn(u32, Document) -> Result<Document, DbError>;

fn pass(_k: PluginKind, d: Document) -> Result<Document, DbError> {
    Ok(d)
}

fn step(version: u32, d: Document) -> Result<Document, DbError> {
    let mut d = d;
    d.set("v".to_string(), Value::Number(version as i64));
    Ok(d)
}

/// Stands in for the host's cipher: wraps a value with the password.
fn seal_with(password: &'static str) -> impl Fn(Value) -> Value {
    move |v: Value| match v {
        Value::Str(s) => Value::Str(format!("enc[{}]{}", password, s)),
        other => other,
    }
}

fn open_with(password: &'static str) -> impl Fn(Value) -> Result<Value, DbError> {
    move |v: Value| match v {
        Value::Str(s) => match s.strip_prefix(&format!("enc[{}]", password)) {
            Some(p) => Ok(Value::Str(p.to_string())),
            None => Err(DbError::StorageError),
        },
        other => Ok(other),
    }
}

fn no_hooks() -> Hooks<DocHook, DocHook, StepHook, fn(Value) -> Value, fn(Value) -> Result<Value, DbError>> {
    Hooks { create: pass, recover: pass, migrate: step, seal: |v| v, open: |v| Ok(v) }
}

fn s(x: &str) -> String {
    x.to_string()
}

fn string_prop(max: Option<u64>) -> Property {
    Property { ptype: PropType::String, max_length: max, min_length: None, items: None, properties: vec![], required: vec![], default: None }
}

fn number_prop() -> Property {
    Property { ptype: PropType::Number, max_length: None, min_length: None, items: None, properties: vec![], required: vec![], default: None }
}

fn raw_schema(version: u32, required: Vec<String>, encrypted: Vec<String>, extra: Vec<(String, Property)>) -> RawSchema {
    let mut properties = vec![(s("id"), string_prop(Some(60))), (s("name"), string_prop(None))];
    properties.extend(extra);
    RawSchema {
        version,
        primary_key: Some(s("id")),
        schema_type: s("object"),
        properties,
        required,
        encrypted,
        indexes: vec![],
    }
}

fn doc(fields: Vec<(&str, Value)>) -> Document {
    Document { fields: fields.into_iter().map(|(k, v)| (s(k), v)).collect() }
}

fn str_v(x: &str) -> Value {
    Value::Str(s(x))
}

fn create_op(c: &str, d: Document) -> Operation {
    Operation { collection: s(c), op_type: OpType::Create, data: OpData::Doc(d), indexes: vec![] }
}

fn fields_equal(a: &Document, b: &Document) -> bool {
    a.fields.len() == b.fields.len()
        && a.fields.iter().zip(b.fields.iter()).all(|(x, y)| x.0 == y.0 && format!("{:?}", x.1) == format!("{:?}", y.1))
}

fn demo_db(required: Vec<String>) -> Database {
    Database::create("db", vec![(s("demo"), raw_schema(0, required, vec![], vec![]))], vec![], 0, &None, None).unwrap()
}

#[test]
fn create_find_delete_in_memory() {
    let mut db = demo_db(vec![]);
    let created = db.write(&no_hooks(), create_op("demo", doc(vec![("id", str_v("1")), ("name", str_v("A"))]))).unwrap();
    let expected = doc(vec![("id", str_v("1")), ("name", str_v("A")), ("version", Value::Number(0))]);
    match created {
        WriteResult::Written(w) => assert!(fields_equal(&w, &expected)),
        WriteResult::Deleted => panic!("expected a document"),
    }
    let found = db.find_by_id(&no_hooks(), "demo", "1").unwrap();
    assert!(fields_equal(&found, &expected));
    let del = Operation { collection: s("demo"), op_type: OpType::Delete, data: OpData::Key(s("1")), indexes: vec![] };
    assert!(matches!(db.write(&no_hooks(), del), Ok(WriteResult::Deleted)));
    assert_eq!(db.find_by_id(&no_hooks(), "demo", "1").err(), Some(DbError::NotFound));
}

#[test]
fn create_rejects_missing_and_extra_fields() {
    let mut db = demo_db(vec![s("name")]);
    let missing = db.write(&no_hooks(), create_op("demo", doc(vec![("id", str_v("1"))])));
    assert_eq!(missing.err(), Some(DbError::ValidationError));
    let extra = db.write(&no_hooks(), create_op("demo", doc(vec![("id", str_v("1")), ("name", str_v("A")), ("extra", Value::Number(1))])));
    assert_eq!(extra.err(), Some(DbError::ValidationError));
    assert_eq!(db.storage.entries.len(), 0);
}

#[test]
fn encrypted_field_round_trip_and_wrong_password() {
    let schema = raw_schema(0, vec![], vec![s("ssn")], vec![(s("ssn"), string_prop(None))]);
    let mut db = Database::create("db", vec![(s("people"), schema)], vec![], 0, &Some(s("pw")), None).unwrap();
    assert_eq!(db.plugins, vec![PluginKind::Encryption, PluginKind::Migration]);
    let host = Hooks { create: pass, recover: pass, migrate: step, seal: seal_with("pw"), open: open_with("pw") };
    db.write(&host, create_op("people", doc(vec![("id", str_v("1")), ("ssn", str_v("123"))]))).unwrap();
    let raw = &db.storage.entries[0].doc;
    assert!(matches!(raw.get("ssn"), Some(Value::Str(c)) if c != "123"));
    let back = db.find_by_id(&host, "people", "1").unwrap();
    assert!(matches!(back.get("ssn"), Some(Value::Str(p)) if p == "123"));
    let wrong = Hooks { create: pass, recover: pass, migrate: step, seal: seal_with("other"), open: open_with("other") };
    assert_eq!(db.find_by_id(&wrong, "people", "1").err(), Some(DbError::EncryptionError));
    let schema = raw_schema(0, vec![], vec![s("ssn")], vec![(s("ssn"), string_prop(None))]);
    let reopened = Database::create("db", vec![(s("people"), schema)], vec![], 0, &Some(s("wrong")), Some(db.storage)).unwrap();
    assert_eq!(reopened.find_by_id(&wrong, "people", "1").err(), Some(DbError::EncryptionError));
    assert!(reopened.find_by_id(&host, "people", "1").is_ok());
}

#[test]
fn old_document_is_migrated_on_read() {
    let schema = raw_schema(2, vec![], vec![], vec![(s("v"), number_prop())]);
    let mut db = Database::create("db", vec![(s("demo"), schema)], vec![(s("demo"), vec![1, 2])], 0, &None, None).unwrap();
    db.storage.entries.push(Entry {
        collection: s("demo"),
        key: s("1"),
        doc: doc(vec![("id", str_v("1")), ("version", Value::Number(0))]),
    });
    let d = db.find_by_id(&no_hooks(), "demo", "1").unwrap();
    assert!(matches!(d.get("v"), Some(Value::Number(2))));
    assert!(matches!(d.get("version"), Some(Value::Number(2))));
}

#[test]
fn missing_migration_is_refused() {
    let schema = raw_schema(2, vec![], vec![], vec![]);
    let r = Database::create("db", vec![(s("demo"), schema)], vec![(s("demo"), vec![2])], 0, &None, None);
    assert_eq!(r.err(), Some(DbError::MigrationError));
    let schema = raw_schema(1, vec![], vec![], vec![]);
    let r = Database::create("db", vec![(s("demo"), schema)], vec![], 0, &None, None);
    assert_eq!(r.err(), Some(DbError::MigrationError));
}

fn users_db() -> Database {
    let props = vec![(s("age"), number_prop()), (s("status"), string_prop(None))];
    let schema = raw_schema(0, vec![], vec![], props);
    let mut db = Database::create("db", vec![(s("users"), schema)], vec![], 0, &None, None).unwrap();
    for (id, age, status) in [("A", 30, "active"), ("B", 25, "inactive"), ("C", 35, "active")] {
        let d = doc(vec![("id", str_v(id)), ("age", Value::Number(age)), ("status", str_v(status))]);
        db.write(&no_hooks(), create_op("users", d)).unwrap();
    }
    db
}

fn ids(ds: &[Document]) -> Vec<String> {
    ds.iter().map(|d| match d.get("id") { Some(Value::Str(x)) => x, _ => s("?") }).collect()
}

fn status_is(x: &str) -> (String, RawClause) {
    (s("status"), RawClause::Scalar(str_v(x)))
}

#[test]
fn find_and_count_users() {
    let db = users_db();
    let q = RawQuery { clauses: vec![status_is("active"), (s("age"), RawClause::Ops(vec![(s("$gt"), Operand::One(Value::Number(30)))]))] };
    let found = db.find(&no_hooks(), "users", q).unwrap();
    assert_eq!(ids(&found), vec![s("C")]);
    let n = db.count("users", RawQuery { clauses: vec![status_is("active")] }).unwrap();
    assert_eq!(n, 2);
}

#[test]
fn or_query_and_empty_or() {
    let db = users_db();
    let young = RawQuery { clauses: vec![(s("age"), RawClause::Ops(vec![(s("$lt"), Operand::One(Value::Number(20)))]))] };
    let active = RawQuery { clauses: vec![status_is("active")] };
    let q = RawQuery { clauses: vec![(s("$or"), RawClause::Logic(vec![young, active]))] };
    assert_eq!(ids(&db.find(&no_hooks(), "users", q).unwrap()), vec![s("A"), s("C")]);
    let empty = RawQuery { clauses: vec![(s("$or"), RawClause::Logic(vec![]))] };
    assert_eq!(db.find(&no_hooks(), "users", empty).err(), Some(DbError::QueryError));
}

#[test]
fn count_equals_find_length() {
    let db = users_db();
    let mk = || RawQuery { clauses: vec![(s("age"), RawClause::Ops(vec![(s("$gte"), Operand::One(Value::Number(30)))]))] };
    let n = db.count("users", mk()).unwrap();
    assert_eq!(n, db.find(&no_hooks(), "users", mk()).unwrap().len());
    assert_eq!(n, 2);
}

#[test]
fn unknown_field_or_operator_is_query_error() {
    let db = users_db();
    let q = RawQuery { clauses: vec![(s("height"), RawClause::Scalar(Value::Number(1)))] };
    assert_eq!(db.count("users", q).err(), Some(DbError::QueryError));
    let q = RawQuery { clauses: vec![(s("age"), RawClause::Ops(vec![(s("$regex"), Operand::One(Value::Number(1)))]))] };
    assert_eq!(db.count("users", q).err(), Some(DbError::QueryError));
    let q = RawQuery { clauses: vec![(s("age"), RawClause::Ops(vec![(s("$in"), Operand::One(Value::Number(1)))]))] };
    assert_eq!(db.count("users", q).err(), Some(DbError::QueryError));
}

#[test]
fn in_and_ne_operators() {
    let db = users_db();
    let q = RawQuery { clauses: vec![(s("age"), RawClause::Ops(vec![(s("$in"), Operand::Many(vec![Value::Number(25), Value::Number(35)]))]))] };
    assert_eq!(ids(&db.find(&no_hooks(), "users", q).unwrap()), vec![s("B"), s("C")]);
    let q = RawQuery { clauses: vec![(s("status"), RawClause::Ops(vec![(s("$ne"), Operand::One(str_v("active")))]))] };
    assert_eq!(ids(&db.find(&no_hooks(), "users", q).unwrap()), vec![s("B")]);
    let q = RawQuery { clauses: vec![(s("status"), RawClause::Ops(vec![(s("$lte"), Operand::One(str_v("active")))]))] };
    assert_eq!(ids(&db.find(&no_hooks(), "users", q).unwrap()), vec![s("A"), s("C")]);
}

#[test]
fn created_document_reads_back() {
    let mut db = users_db();
    let d = doc(vec![("id", str_v("D")), ("age", Value::Number(41)), ("status", str_v("new")), ("name", str_v("Dee"))]);
    db.write(&no_hooks(), create_op("users", d)).unwrap();
    let back = db.find_by_id(&no_hooks(), "users", "D").unwrap();
    assert!(matches!(back.get("age"), Some(Value::Number(41))));
    assert!(matches!(back.get("name"), Some(Value::Str(n)) if n == "Dee"));
    assert!(matches!(back.get("version"), Some(Value::Number(0))));
}

#[test]
fn update_overwrites() {
    let mut db = users_db();
    let d = doc(vec![("id", str_v("A")), ("age", Value::Number(31))]);
    let op = Operation { collection: s("users"), op_type: OpType::Update, data: OpData::Doc(d), indexes: vec![] };
    db.write(&no_hooks(), op).unwrap();
    assert_eq!(db.storage.entries.len(), 3);
    let back = db.find_by_id(&no_hooks(), "users", "A").unwrap();
    assert!(matches!(back.get("age"), Some(Value::Number(31))));
    assert!(back.get("status").is_none());
}

#[test]
fn unsupported_operation_and_unknown_collection() {
    let mut db = users_db();
    let op = Operation { collection: s("users"), op_type: OpType::Count, data: OpData::Key(s("A")), indexes: vec![] };
    assert_eq!(db.write(&no_hooks(), op).err(), Some(DbError::UnsupportedOperation));
    let op = create_op("nobody", doc(vec![("id", str_v("1"))]));
    assert_eq!(db.write(&no_hooks(), op).err(), Some(DbError::ValidationError));
}

#[test]
fn collections_are_listed() {
    let a = raw_schema(0, vec![], vec![], vec![]);
    let b = raw_schema(0, vec![], vec![], vec![]);
    let db = Database::create("db", vec![(s("a"), a), (s("b"), b)], vec![], 2, &None, None).unwrap();
    assert_eq!(db.collections(), vec![s("a"), s("b")]);
    assert_eq!(db.plugins, vec![PluginKind::User(0), PluginKind::User(1), PluginKind::Migration]);
}

#[test]
fn hooks_run_in_chain_order_and_reverse_on_read() {
    fn tag_create(k: PluginKind, d: Document) -> Result<Document, DbError> {
        let mut d = d;
        let prev = match d.get("name") { Some(Value::Str(x)) => x, _ => String::new() };
        if let PluginKind::User(i) = k {
            d.set("name".to_string(), Value::Str(format!("{}c{}", prev, i)));
        }
        Ok(d)
    }
    fn tag_recover(k: PluginKind, d: Document) -> Result<Document, DbError> {
        let mut d = d;
        let prev = match d.get("name") { Some(Value::Str(x)) => x, _ => String::new() };
        if let PluginKind::User(i) = k {
            d.set("name".to_string(), Value::Str(format!("{}r{}", prev, i)));
        }
        Ok(d)
    }
    let schema = raw_schema(0, vec![], vec![], vec![]);
    let mut db = Database::create("db", vec![(s("demo"), schema)], vec![], 2, &None, None).unwrap();
    let hooks: Hooks<DocHook, DocHook, StepHook, fn(Value) -> Value, fn(Value) -> Result<Value, DbError>> =
        Hooks { create: tag_create, recover: tag_recover, migrate: step, seal: |v| v, open: |v| Ok(v) };
    let out = db.write(&hooks, create_op("demo", doc(vec![("id", str_v("1")), ("name", str_v("x"))]))).unwrap();
    assert!(matches!(db.storage.entries[0].doc.get("name"), Some(Value::Str(n)) if n == "xc0c1"));
    match out {
        WriteResult::Written(w) => assert!(matches!(w.get("name"), Some(Value::Str(n)) if n == "xc0c1r1r0")),
        WriteResult::Deleted => panic!("expected a document"),
    }
}
