use ridb::error::DbError;
use ridb::indexdb::{IndexDB, StoreAction};
use ridb::memory::{InMemory, OpData, OpType, Operation, WriteResult};
use ridb::plugin::{migration_steps, plugin_chain, PluginKind};
use ridb::pool::IndexDBPool;
use ridb::query::{parse_query, str_lt, Op, Operand, QueryNode, RawClause, RawQuery};
use ridb::schema::{PropType, Property, RawSchema, Schema};
use ridb::value::{values_equal, Document, Items, Members, Value};

fn s(x: &str) -> String {
    x.to_string()
}

fn prop(ptype: PropType, max: Option<u64>, min: Option<u64>) -> Property {
    Property { ptype, max_length: max, min_length: min, items: None, properties: vec![], required: vec![], default: None }
}

fn raw() -> RawSchema {
    RawSchema {
        version: 0,
        primary_key: Some(s("id")),
        schema_type: s("object"),
        properties: vec![
            (s("id"), prop(PropType::String, Some(60), None)),
            (s("name"), prop(PropType::String, Some(3), Some(1))),
            (s("age"), prop(PropType::Number, None, None)),
            (s("ok"), prop(PropType::Boolean, None, None)),
        ],
        required: vec![s("name")],
        encrypted: vec![],
        indexes: vec![s("age")],
    }
}

fn doc(fields: Vec<(&str, Value)>) -> Document {
    Document { fields: fields.into_iter().map(|(k, v)| (s(k), v)).collect() }
}

#[test]
fn schema_construction_checks() {
    assert!(Schema::create(raw()).is_ok());
    let mut r = raw();
    r.schema_type = s("array");
    assert_eq!(Schema::create(r).err().map(|e| e), Some(DbError::ValidationError));
    let mut r = raw();
    r.primary_key = None;
    assert!(Schema::create(r).is_err());
    let mut r = raw();
    r.primary_key = Some(s("age"));
    assert!(Schema::create(r).is_err());
    let mut r = raw();
    r.primary_key = Some(s("nope"));
    assert!(Schema::create(r).is_err());
    let mut r = raw();
    r.required = vec![s("nope")];
    assert!(Schema::create(r).is_err());
    let mut r = raw();
    r.encrypted = vec![s("nope")];
    assert!(Schema::create(r).is_err());
    let mut r = raw();
    r.indexes = vec![s("nope")];
    assert!(Schema::create(r).is_err());
}

#[test]
fn schema_accessors() {
    let sc = Schema::create(raw()).unwrap();
    assert_eq!(sc.version(), 0);
    assert_eq!(sc.primary_key(), s("id"));
    assert_eq!(sc.indexes(), vec![s("age")]);
    assert!(sc.encrypted_fields().is_empty());
    assert!(matches!(sc.property("age"), Some(Property { ptype: PropType::Number, .. })));
    let path = vec![s("address"), s("city")];
    assert!(sc.property_path(&path).is_none());
    assert!(sc.property("zzz").is_none());
}

#[test]
fn valid_document_is_returned_unchanged() {
    let sc = Schema::create(raw()).unwrap();
    let d = doc(vec![("id", Value::Str(s("x"))), ("name", Value::Str(s("Bo"))), ("age", Value::Number(3)), ("ok", Value::Bool(true))]);
    let out = sc.validate_schema(&d).unwrap();
    assert_eq!(format!("{:?}", out.fields), format!("{:?}", d.fields));
}

#[test]
fn each_violated_constraint_is_rejected() {
    let sc = Schema::create(raw()).unwrap();
    let bad = vec![
        doc(vec![("id", Value::Str(s("x"))), ("name", Value::Str(s("Bobby")))]),
        doc(vec![("id", Value::Str(s("x"))), ("name", Value::Str(s("")))]),
        doc(vec![("id", Value::Str(s("x"))), ("name", Value::Str(s("Bo"))), ("age", Value::Str(s("3")))]),
        doc(vec![("id", Value::Str(s("x"))), ("name", Value::Str(s("Bo"))), ("ok", Value::Number(1))]),
        doc(vec![("id", Value::Str(s("x")))]),
        doc(vec![("name", Value::Str(s("Bo")))]),
        doc(vec![("id", Value::Str(s(""))), ("name", Value::Str(s("Bo")))]),
        doc(vec![("id", Value::Number(1)), ("name", Value::Str(s("Bo")))]),
        doc(vec![("id", Value::Str(s("x"))), ("name", Value::Str(s("Bo"))), ("other", Value::Null)]),
        doc(vec![("id", Value::Str(s("x"))), ("name", Value::Str(s("Bo"))), ("name", Value::Str(s("Al")))]),
    ];
    for d in bad {
        assert_eq!(sc.validate_schema(&d).err(), Some(DbError::ValidationError));
    }
}

#[test]
fn parse_normalizes_clauses() {
    let sc = Schema::create(raw()).unwrap();
    let q = RawQuery {
        clauses: vec![
            (s("name"), RawClause::Scalar(Value::Str(s("Bo")))),
            (s("age"), RawClause::Ops(vec![(s("$gte"), Operand::One(Value::Number(1))), (s("$lt"), Operand::One(Value::Number(9)))])),
        ],
    };
    let n = parse_query(q, &sc.properties).unwrap();
    match n {
        QueryNode::And(cs) => {
            assert_eq!(cs.len(), 2);
            assert!(matches!(&cs[0], QueryNode::Leaf(k, Op::Eq, Operand::One(Value::Str(v))) if k == "name" && v == "Bo"));
            match &cs[1] {
                QueryNode::And(ls) => {
                    assert!(matches!(&ls[0], QueryNode::Leaf(k, Op::Gte, _) if k == "age"));
                    assert!(matches!(&ls[1], QueryNode::Leaf(k, Op::Lt, _) if k == "age"));
                }
                _ => panic!("operators are conjoined"),
            }
        }
        _ => panic!("a query is a conjunction"),
    }
}

#[test]
fn query_matching_rules() {
    let d = doc(vec![("id", Value::Str(s("x"))), ("age", Value::Number(5)), ("name", Value::Str(s("b")))]);
    let leaf = |f: &str, op: Op, v: Operand| QueryNode::Leaf(s(f), op, v);
    assert!(leaf("age", Op::Eq, Operand::One(Value::Number(5))).matches(&d));
    assert!(!leaf("age", Op::Eq, Operand::One(Value::Str(s("5")))).matches(&d));
    assert!(leaf("age", Op::Gt, Operand::One(Value::Number(4))).matches(&d));
    assert!(!leaf("age", Op::Gt, Operand::One(Value::Str(s("a")))).matches(&d));
    assert!(leaf("name", Op::Lt, Operand::One(Value::Str(s("ba")))).matches(&d));
    assert!(!leaf("missing", Op::Lt, Operand::One(Value::Number(1))).matches(&d));
    assert!(leaf("missing", Op::Ne, Operand::One(Value::Number(1))).matches(&d));
    assert!(!leaf("missing", Op::In, Operand::Many(vec![Value::Null])).matches(&d));
    assert!(leaf("missing", Op::Eq, Operand::One(Value::Null)).matches(&d));
    assert!(!leaf("missing", Op::Ne, Operand::One(Value::Null)).matches(&d));
    assert!(!leaf("age", Op::Eq, Operand::One(Value::Null)).matches(&d));
    assert!(QueryNode::And(vec![]).matches(&d));
    assert!(!QueryNode::Or(vec![]).matches(&d));
    assert!(str_lt("abc", "abd"));
    assert!(str_lt("ab", "abc"));
    assert!(!str_lt("abc", "abc"));
    assert!(values_equal(&Value::Null, &Value::Null));
    assert!(!values_equal(&Value::Bool(true), &Value::Number(1)));
}

#[test]
fn plugin_chain_order() {
    assert_eq!(plugin_chain(0, false), vec![PluginKind::Migration]);
    assert_eq!(plugin_chain(2, true), vec![PluginKind::User(0), PluginKind::User(1), PluginKind::Encryption, PluginKind::Migration]);
}

#[test]
fn migration_steps_cases() {
    assert_eq!(migration_steps(0, 2, &vec![1, 2]), Ok(vec![1, 2]));
    assert_eq!(migration_steps(1, 3, &vec![3, 2]), Ok(vec![2, 3]));
    assert_eq!(migration_steps(2, 2, &vec![]), Ok(vec![]));
    assert_eq!(migration_steps(0, 2, &vec![2]), Err(DbError::MigrationError));
    assert_eq!(migration_steps(-1, 2, &vec![0, 1, 2]), Err(DbError::MigrationError));
}

#[test]
fn pool_hands_out_one_handle_per_name() {
    let mut pool = IndexDBPool::new();
    assert_eq!(pool.get_connection("a"), None);
    assert_eq!(pool.acquire(s("a"), 7), 7);
    assert_eq!(pool.acquire(s("a"), 9), 7);
    assert_eq!(pool.acquire(s("b"), 9), 9);
    assert_eq!(pool.get_connection("a"), Some(7));
    pool.store_connection(s("a"), 11);
    assert_eq!(pool.get_connection("a"), Some(11));
    assert_eq!(pool.connections.len(), 2);
    pool.release("a");
    assert_eq!(pool.get_connection("a"), None);
    assert_eq!(pool.get_connection("b"), Some(9));
    assert_eq!(pool.acquire(s("a"), 12), 12);
}

#[test]
fn indexdb_write_plans() {
    let db = IndexDB::create("store", raw(), 3).unwrap();
    assert_eq!(db.name(), s("store"));
    assert_eq!(db.schema().primary_key(), s("id"));
    let d = doc(vec![("id", Value::Str(s("k1"))), ("name", Value::Str(s("Bo")))]);
    let op = Operation { collection: s("c"), op_type: OpType::Create, data: OpData::Doc(d), indexes: vec![] };
    match db.write(op) {
        Ok(StoreAction::Put { key, doc }) => {
            assert_eq!(key, s("k1"));
            assert_eq!(doc.fields.len(), 2);
        }
        _ => panic!("expected a put"),
    }
    let bad = doc(vec![("name", Value::Str(s("Bo")))]);
    let op = Operation { collection: s("c"), op_type: OpType::Update, data: OpData::Doc(bad), indexes: vec![] };
    assert!(matches!(db.write(op), Err(DbError::ValidationError)));
    let op = Operation { collection: s("c"), op_type: OpType::Delete, data: OpData::Key(s("k1")), indexes: vec![] };
    assert!(matches!(db.write(op), Ok(StoreAction::Delete { key }) if key == "k1"));
    let op = Operation { collection: s("c"), op_type: OpType::Query, data: OpData::Key(s("k1")), indexes: vec![] };
    assert!(matches!(db.write(op), Err(DbError::UnsupportedOperation)));
    assert!(IndexDB::create("store", RawSchema { primary_key: None, ..raw() }, 3).is_err());
}

#[test]
fn indexdb_reads_filter_what_the_store_returns() {
    let db = IndexDB::create("store", raw(), 3).unwrap();
    let all = vec![
        doc(vec![("id", Value::Str(s("a"))), ("age", Value::Number(1))]),
        doc(vec![("id", Value::Str(s("b"))), ("age", Value::Number(5))]),
        doc(vec![("id", Value::Str(s("c"))), ("age", Value::Number(9))]),
    ];
    let q = || RawQuery { clauses: vec![(s("age"), RawClause::Ops(vec![(s("$gt"), Operand::One(Value::Number(2)))]))] };
    assert_eq!(db.count(&all, q()), Ok(2));
    let found = db.find(all, q()).unwrap();
    assert_eq!(found.len(), 2);
    assert!(matches!(found[0].get("id"), Some(Value::Str(x)) if x == "b"));
    assert_eq!(db.find_document_by_id(None).err(), Some(DbError::NotFound));
    let got = db.find_document_by_id(Some(doc(vec![("id", Value::Str(s("z")))]))).unwrap();
    assert_eq!(got.fields.len(), 1);
}

#[test]
fn in_memory_backend_directly() {
    let mut m = InMemory::new(s("mem"));
    let d = doc(vec![("id", Value::Str(s("1")))]);
    let op = Operation { collection: s("c"), op_type: OpType::Create, data: OpData::Doc(d), indexes: vec![] };
    assert!(matches!(m.write(op, "id"), Ok(WriteResult::Written(_))));
    let nokey = doc(vec![("name", Value::Str(s("x")))]);
    let op = Operation { collection: s("c"), op_type: OpType::Create, data: OpData::Doc(nokey), indexes: vec![] };
    assert!(matches!(m.write(op, "id"), Err(DbError::ValidationError)));
    let all = QueryNode::And(vec![]);
    assert_eq!(m.count("c", &all), 1);
    assert_eq!(m.count("other", &all), 0);
    assert_eq!(m.find("c", &all).len(), 1);
    assert_eq!(m.find_document_by_id("c", "2").err(), Some(DbError::NotFound));
    assert_eq!(DbError::NotFound.name(), "NotFound");
}

#[test]
fn parsing_the_normalized_form_gives_the_same_query() {
    let sc = Schema::create(raw()).unwrap();
    let inner = RawQuery { clauses: vec![(s("age"), RawClause::Ops(vec![(s("$in"), Operand::Many(vec![Value::Number(1), Value::Number(2)]))]))] };
    let other = RawQuery { clauses: vec![(s("name"), RawClause::Scalar(Value::Str(s("Bo"))))] };
    let q = RawQuery {
        clauses: vec![
            (s("$or"), RawClause::Logic(vec![inner, other])),
            (s("$and"), RawClause::Logic(vec![RawQuery { clauses: vec![(s("ok"), RawClause::Scalar(Value::Bool(true)))] }])),
            (s("age"), RawClause::Ops(vec![(s("$ne"), Operand::One(Value::Number(3)))])),
        ],
    };
    let first = parse_query(q, &sc.properties).unwrap();
    let shown = format!("{:?}", first);
    let again = parse_query(ridb::query::normalized_form(first), &sc.properties).unwrap();
    assert_eq!(format!("{:?}", again), shown);
}

fn nested_schema() -> Schema {
    let city = prop(PropType::String, Some(5), None);
    let address = Property {
        ptype: PropType::Object,
        max_length: None,
        min_length: None,
        items: None,
        properties: vec![(s("city"), city), (s("zip"), prop(PropType::Number, None, None))],
        required: vec![s("city")],
        default: None,
    };
    let tag = Property {
        ptype: PropType::Object,
        max_length: None,
        min_length: None,
        items: None,
        properties: vec![(s("label"), prop(PropType::String, None, None))],
        required: vec![],
        default: None,
    };
    let tags = Property {
        ptype: PropType::Array,
        max_length: None,
        min_length: None,
        items: Some(Box::new(tag)),
        properties: vec![],
        required: vec![],
        default: None,
    };
    let mut r = raw();
    r.required = vec![];
    r.properties.push((s("address"), address));
    r.properties.push((s("tags"), tags));
    Schema::create(r).unwrap()
}

fn object(members: Vec<(&str, Value)>) -> Value {
    let mut list = Members::Nil;
    for (k, v) in members.into_iter().rev() {
        list = Members::Cons(s(k), v, Box::new(list));
    }
    Value::Object(Box::new(list))
}

fn array(items: Vec<Value>) -> Value {
    let mut list = Items::Nil;
    for v in items.into_iter().rev() {
        list = Items::Cons(v, Box::new(list));
    }
    Value::Array(Box::new(list))
}

#[test]
fn nested_values_are_validated_recursively() {
    let sc = nested_schema();
    let good = doc(vec![
        ("id", Value::Str(s("x"))),
        ("address", object(vec![("city", Value::Str(s("Oslo"))), ("zip", Value::Number(150))])),
        ("tags", array(vec![object(vec![("label", Value::Str(s("a")))]), object(vec![])])),
    ]);
    assert!(sc.validate_schema(&good).is_ok());
    let bad = vec![
        doc(vec![("id", Value::Str(s("x"))), ("address", object(vec![("zip", Value::Number(1))]))]),
        doc(vec![("id", Value::Str(s("x"))), ("address", object(vec![("city", Value::Str(s("Bergen!")))]))]),
        doc(vec![("id", Value::Str(s("x"))), ("address", object(vec![("city", Value::Str(s("Oslo"))), ("street", Value::Null)]))]),
        doc(vec![("id", Value::Str(s("x"))), ("address", Value::Str(s("Oslo")))]),
        doc(vec![("id", Value::Str(s("x"))), ("tags", array(vec![Value::Number(1)]))]),
        doc(vec![("id", Value::Str(s("x"))), ("tags", object(vec![]))]),
    ];
    for d in bad {
        assert_eq!(sc.validate_schema(&d).err(), Some(DbError::ValidationError));
    }
    let copy = good.copy();
    assert_eq!(format!("{:?}", copy.fields), format!("{:?}", good.fields));
}

#[test]
fn dotted_paths_resolve_through_objects_and_items() {
    let sc = nested_schema();
    assert!(matches!(sc.property_path(&vec![s("address"), s("city")]), Some(Property { ptype: PropType::String, max_length: Some(5), .. })));
    assert!(matches!(sc.property_path(&vec![s("tags"), s("label")]), Some(Property { ptype: PropType::String, .. })));
    assert!(matches!(sc.property_path(&vec![s("tags")]), Some(Property { ptype: PropType::Array, .. })));
    assert!(sc.property_path(&vec![s("address"), s("country")]).is_none());
    assert!(sc.property_path(&vec![]).is_none());
}
