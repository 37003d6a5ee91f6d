use vstd::prelude::*;
use crate::error::DbError;
use crate::value::{Value, Items, Members, Document, find_key, field_of, key_position, copy_strings, str_eq};

verus! {

/// The declared type of a property.
#[derive(Debug, Clone, Copy, PartialEq, Eq, Structural)]
pub enum PropType {
    String,
    Number,
    Boolean,
    Object,
    Array,
}

/// The constraints declared for one property. `items` constrains each item
/// of an array; `properties` and `required` describe the members of an object.
/// `default` is carried as declared.
#[derive(Debug)]
pub struct Property {
    pub ptype: PropType,
    pub max_length: Option<u64>,
    pub min_length: Option<u64>,
    pub items: Option<Box<Property>>,
    pub properties: Vec<(String, Property)>,
    pub required: Vec<String>,
    pub default: Option<Value>,
}

/// A schema as the user writes it, before it is checked.
pub struct RawSchema {
    pub version: u32,
    pub primary_key: Option<String>,
    pub schema_type: String,
    pub properties: Vec<(String, Property)>,
    pub required: Vec<String>,
    pub encrypted: Vec<String>,
    pub indexes: Vec<String>,
}

/// A checked schema: the primary key names a string property, and every listed
/// name is a declared property.
pub struct Schema {
    pub version: u32,
    pub primary_key: String,
    pub properties: Vec<(String, Property)>,
    pub required: Vec<String>,
    pub encrypted: Vec<String>,
    pub indexes: Vec<String>,
}

/// Whether `name` is a declared property.
pub open spec fn declared(props: Seq<(String, Property)>, name: Seq<char>) -> bool {
    find_key(props, name).is_some()
}

/// Whether every name of `names` is a declared property.
pub open spec fn all_declared(props: Seq<(String, Property)>, names: Seq<String>) -> bool {
    forall|i: int| 0 <= i < names.len() ==> declared(props, #[trigger] names[i]@)
}

/// Whether the primary key names a declared property of type string.
pub open spec fn key_is_string(props: Seq<(String, Property)>, pk: Seq<char>) -> bool {
    match find_key(props, pk) {
        Some(i) => props[i].1.ptype == PropType::String,
        None => false,
    }
}

/// Whether a raw schema is acceptable.
pub open spec fn raw_schema_ok(raw: RawSchema) -> bool {
    &&& raw.schema_type@ == "object"@
    &&& raw.primary_key.is_some()
    &&& key_is_string(raw.properties@, raw.primary_key.unwrap()@)
    &&& all_declared(raw.properties@, raw.required@)
    &&& all_declared(raw.properties@, raw.encrypted@)
    &&& all_declared(raw.properties@, raw.indexes@)
}

/// Whether value `v` meets the constraints of property `p`: the declared
/// type, string lengths, and for arrays and objects, their contents in turn.
pub open spec fn value_fits(p: Property, v: Value) -> bool
    decreases v,
{
    match p.ptype {
        PropType::String => match v {
            Value::Str(s) => (match p.max_length {
                Some(m) => s@.len() <= m,
                None => true,
            }) && (match p.min_length {
                Some(m) => s@.len() >= m,
                None => true,
            }),
            _ => false,
        },
        PropType::Number => v is Number,
        PropType::Boolean => v is Bool,
        PropType::Array => match v {
            Value::Array(items) => items_fit(p, *items),
            _ => false,
        },
        PropType::Object => match v {
            Value::Object(ms) => members_fit(p, *ms) && forall|i: int| 0 <= i < p.required@.len()
                ==> has_member(*ms, #[trigger] p.required@[i]@),
            _ => false,
        },
    }
}

/// Whether every item meets the constraints of the array property's `items`.
pub open spec fn items_fit(p: Property, items: Items) -> bool
    decreases items,
{
    match items {
        Items::Nil => true,
        Items::Cons(x, rest) => (match p.items {
            Some(ip) => value_fits(*ip, x),
            None => true,
        }) && items_fit(p, *rest),
    }
}

/// Whether every member is declared in the object property and meets its constraints.
pub open spec fn members_fit(p: Property, ms: Members) -> bool
    decreases ms,
{
    match ms {
        Members::Nil => true,
        Members::Cons(k, x, rest) => (match find_key(p.properties@, k@) {
            Some(i) => value_fits(p.properties@[i].1, x),
            None => false,
        }) && members_fit(p, *rest),
    }
}

/// Whether an object has a member named `name`.
pub open spec fn has_member(ms: Members, name: Seq<char>) -> bool
    decreases ms,
{
    match ms {
        Members::Nil => false,
        Members::Cons(k, _, rest) => k@ == name || has_member(*rest, name),
    }
}

/// Whether no two fields share a name.
pub open spec fn distinct_keys(fields: Seq<(String, Value)>) -> bool {
    forall|i: int, j: int| 0 <= i < j < fields.len() ==> fields[i].0@ != fields[j].0@
}

impl Schema {
    pub open spec fn wf(&self) -> bool {
        &&& key_is_string(self.properties@, self.primary_key@)
        &&& all_declared(self.properties@, self.required@)
        &&& all_declared(self.properties@, self.encrypted@)
        &&& all_declared(self.properties@, self.indexes@)
    }

    /// Whether each field is declared and meets its property's constraints.
    pub open spec fn fields_fit(&self, fields: Seq<(String, Value)>) -> bool {
        forall|i: int| 0 <= i < fields.len() ==> match #[trigger] find_key(self.properties@, fields[i].0@) {
            Some(p) => value_fits(self.properties@[p].1, fields[i].1),
            None => false,
        }
    }

    /// Whether every required field is present.
    pub open spec fn has_required(&self, fields: Seq<(String, Value)>) -> bool {
        forall|i: int| 0 <= i < self.required@.len() ==> find_key(fields, #[trigger] self.required@[i]@).is_some()
    }

    /// Whether the primary key field holds a non-empty string.
    pub open spec fn has_key(&self, fields: Seq<(String, Value)>) -> bool {
        match field_of(fields, self.primary_key@) {
            Some(Value::Str(s)) => s@.len() > 0,
            _ => false,
        }
    }

    /// Whether a document with these fields satisfies the schema.
    pub open spec fn accepts(&self, fields: Seq<(String, Value)>) -> bool {
        &&& distinct_keys(fields)
        &&& self.fields_fit(fields)
        &&& self.has_required(fields)
        &&& self.has_key(fields)
    }

    /// Checks a raw schema and builds the schema from it.
    pub fn create(raw: RawSchema) -> (r: Result<Schema, DbError>)
        ensures
            raw_schema_ok(raw) <==> r is Ok,
            r is Err ==> r == Err::<Schema, DbError>(DbError::ValidationError),
            r matches Ok(s) ==> s.wf() && s.version == raw.version
                && s.primary_key@ == raw.primary_key.unwrap()@
                && s.properties@ == raw.properties@ && s.required@ == raw.required@
                && s.encrypted@ == raw.encrypted@ && s.indexes@ == raw.indexes@,
    {
        if !str_eq(raw.schema_type.as_str(), "object") {
            proof { reveal_strlit("object"); }
            return Err(DbError::ValidationError);
        }
        proof { reveal_strlit("object"); }
        let pk = match raw.primary_key {
            Some(pk) => pk,
            None => return Err(DbError::ValidationError),
        };
        match key_position(&raw.properties, pk.as_str()) {
            Some(i) => {
                if raw.properties[i].1.ptype != PropType::String {
                    return Err(DbError::ValidationError);
                }
            },
            None => return Err(DbError::ValidationError),
        }
        if !names_declared(&raw.properties, &raw.required) || !names_declared(&raw.properties, &raw.encrypted)
            || !names_declared(&raw.properties, &raw.indexes) {
            return Err(DbError::ValidationError);
        }
        Ok(Schema {
            version: raw.version,
            primary_key: pk,
            properties: raw.properties,
            required: raw.required,
            encrypted: raw.encrypted,
            indexes: raw.indexes,
        })
    }

    /// Validates a document: on success hands it back unchanged.
    pub fn validate_schema(&self, doc: &Document) -> (r: Result<Document, DbError>)
        requires
            self.wf(),
        ensures
            r is Ok <==> self.accepts(doc.fields@),
            r matches Ok(d) ==> d.fields@ == doc.fields@,
            r is Err ==> r == Err::<Document, DbError>(DbError::ValidationError),
    {
        // no field twice
        let mut i: usize = 0;
        while i < doc.fields.len()
            invariant
                0 <= i <= doc.fields.len(),
                forall|a: int, b: int| 0 <= a < b < i ==> doc.fields@[a].0@ != doc.fields@[b].0@,
            decreases doc.fields.len() - i,
        {
            let mut j: usize = 0;
            while j < i
                invariant
                    0 <= j <= i < doc.fields.len(),
                    forall|a: int| 0 <= a < j ==> doc.fields@[a].0@ != doc.fields@[i as int].0@,
                decreases i - j,
            {
                if str_eq(doc.fields[j].0.as_str(), doc.fields[i].0.as_str()) {
                    proof {
                        assert(doc.fields@[j as int].0@ == doc.fields@[i as int].0@);
                        assert(!distinct_keys(doc.fields@));
                    }
                    return Err(DbError::ValidationError);
                }
                j = j + 1;
            }
            i = i + 1;
        }
        // every field declared and fitting
        let mut i: usize = 0;
        while i < doc.fields.len()
            invariant
                0 <= i <= doc.fields.len(),
                distinct_keys(doc.fields@),
                forall|k: int| 0 <= k < i ==> match #[trigger] find_key(self.properties@, doc.fields@[k].0@) {
                    Some(p) => value_fits(self.properties@[p].1, doc.fields@[k].1),
                    None => false,
                },
            decreases doc.fields.len() - i,
        {
            match key_position(&self.properties, doc.fields[i].0.as_str()) {
                Some(p) => {
                    if !fits(&self.properties[p].1, &doc.fields[i].1) {
                        proof {
                            assert(find_key(self.properties@, doc.fields@[i as int].0@) == Some(p as int));
                            assert(!self.fields_fit(doc.fields@));
                        }
                        return Err(DbError::ValidationError);
                    }
                },
                None => {
                    proof {
                        assert(find_key(self.properties@, doc.fields@[i as int].0@) is None);
                        assert(!self.fields_fit(doc.fields@));
                    }
                    return Err(DbError::ValidationError);
                },
            }
            i = i + 1;
        }
        // required fields present
        let mut i: usize = 0;
        while i < self.required.len()
            invariant
                0 <= i <= self.required.len(),
                distinct_keys(doc.fields@),
                self.fields_fit(doc.fields@),
                forall|k: int| 0 <= k < i ==> find_key(doc.fields@, #[trigger] self.required@[k]@).is_some(),
            decreases self.required.len() - i,
        {
            if key_position(&doc.fields, self.required[i].as_str()).is_none() {
                proof {
                    assert(find_key(doc.fields@, self.required@[i as int]@) is None);
                    assert(!self.has_required(doc.fields@));
                }
                return Err(DbError::ValidationError);
            }
            i = i + 1;
        }
        match doc.get(self.primary_key.as_str()) {
            Some(Value::Str(s)) => {
                if s.as_str().unicode_len() == 0 {
                    return Err(DbError::ValidationError);
                }
            },
            _ => return Err(DbError::ValidationError),
        }
        Ok(doc.copy())
    }

    pub fn version(&self) -> (r: u32)
        ensures
            r == self.version,
    {
        self.version
    }

    pub fn primary_key(&self) -> (r: String)
        ensures
            r@ == self.primary_key@,
    {
        self.primary_key.clone()
    }

    pub fn encrypted_fields(&self) -> (r: Vec<String>)
        ensures
            r@ == self.encrypted@,
    {
        copy_strings(&self.encrypted)
    }

    pub fn indexes(&self) -> (r: Vec<String>)
        ensures
            r@ == self.indexes@,
    {
        copy_strings(&self.indexes)
    }

    /// The property that a dotted path names, given as its names in order.
    pub fn property_path(&self, path: &Vec<String>) -> (r: Option<&Property>)
        ensures
            r is Some == resolve(self.properties@, path@) is Some,
            r matches Some(q) ==> Some(*q) == resolve(self.properties@, path@),
    {
        proof {
            assert(path@.skip(0) =~= path@);
        }
        resolve_from(&self.properties, path, 0)
    }

    /// The property declared under `name`, if any.
    pub fn property(&self, name: &str) -> (r: Option<&Property>)
        ensures
            r is Some == find_key(self.properties@, name@) is Some,
            r matches Some(q) ==> *q == self.properties@[find_key(self.properties@, name@).unwrap()].1,
    {
        match key_position(&self.properties, name) {
            Some(i) => Some(&self.properties[i].1),
            None => None,
        }
    }
}

/// Decides whether `v` meets the constraints of `p`.
pub fn fits(p: &Property, v: &Value) -> (r: bool)
    ensures
        r == value_fits(*p, *v),
    decreases v,
{
    match p.ptype {
        PropType::String => match v {
            Value::Str(s) => {
                let n = s.as_str().unicode_len();
                let upper = match p.max_length {
                    Some(m) => n as u64 <= m,
                    None => true,
                };
                let lower = match p.min_length {
                    Some(m) => n as u64 >= m,
                    None => true,
                };
                upper && lower
            },
            _ => false,
        },
        PropType::Number => matches!(v, Value::Number(_)),
        PropType::Boolean => matches!(v, Value::Bool(_)),
        PropType::Array => match v {
            Value::Array(items) => items_fit_exec(p, items),
            _ => false,
        },
        PropType::Object => match v {
            Value::Object(ms) => {
                if !members_fit_exec(p, ms) {
                    return false;
                }
                let mut i: usize = 0;
                while i < p.required.len()
                    invariant
                        0 <= i <= p.required.len(),
                        *v == Value::Object(*ms),
                        p.ptype == PropType::Object,
                        members_fit(*p, **ms),
                        forall|j: int| 0 <= j < i ==> has_member(**ms, #[trigger] p.required@[j]@),
                    decreases p.required.len() - i,
                {
                    if !has_member_exec(ms, p.required[i].as_str()) {
                        proof {
                            assert(!has_member(**ms, p.required@[i as int]@));
                        }
                        return false;
                    }
                    i = i + 1;
                }
                true
            },
            _ => false,
        },
    }
}

/// Decides `items_fit`.
pub fn items_fit_exec(p: &Property, items: &Items) -> (r: bool)
    ensures
        r == items_fit(*p, *items),
    decreases items,
{
    match items {
        Items::Nil => true,
        Items::Cons(x, rest) => {
            let here = match &p.items {
                Some(ip) => fits(ip, x),
                None => true,
            };
            here && items_fit_exec(p, rest)
        },
    }
}

/// Decides `members_fit`.
pub fn members_fit_exec(p: &Property, ms: &Members) -> (r: bool)
    ensures
        r == members_fit(*p, *ms),
    decreases ms,
{
    match ms {
        Members::Nil => true,
        Members::Cons(k, x, rest) => {
            let here = match key_position(&p.properties, k.as_str()) {
                Some(i) => fits(&p.properties[i].1, x),
                None => false,
            };
            here && members_fit_exec(p, rest)
        },
    }
}

/// Decides `has_member`.
pub fn has_member_exec(ms: &Members, name: &str) -> (r: bool)
    ensures
        r == has_member(*ms, name@),
    decreases ms,
{
    match ms {
        Members::Nil => false,
        Members::Cons(k, _, rest) => str_eq(k.as_str(), name) || has_member_exec(rest, name),
    }
}

/// The properties under `p` that a path continues into: an object's members,
/// or those of an array's items.
pub open spec fn members_of(p: Property) -> Seq<(String, Property)> {
    if p.ptype == PropType::Array {
        match p.items {
            Some(ip) => ip.properties@,
            None => Seq::empty(),
        }
    } else {
        p.properties@
    }
}

/// The property that a dotted path names, one name per step, through nested
/// objects and array items.
pub open spec fn resolve(props: Seq<(String, Property)>, path: Seq<String>) -> Option<Property>
    decreases path.len(),
{
    if path.len() == 0 {
        None
    } else {
        match find_key(props, path[0]@) {
            None => None,
            Some(i) => if path.len() == 1 {
                Some(props[i].1)
            } else {
                resolve(members_of(props[i].1), path.drop_first())
            },
        }
    }
}

/// Resolves `path` from position `from` on, among `props`.
pub fn resolve_from<'a>(props: &'a Vec<(String, Property)>, path: &Vec<String>, from: usize) -> (r: Option<&'a Property>)
    requires
        from <= path@.len(),
    ensures
        r is Some == resolve(props@, path@.skip(from as int)) is Some,
        r matches Some(q) ==> Some(*q) == resolve(props@, path@.skip(from as int)),
    decreases path@.len() - from,
{
    if from >= path.len() {
        return None;
    }
    let i = match key_position(props, path[from].as_str()) {
        Some(i) => i,
        None => return None,
    };
    let p = &props[i].1;
    proof {
        assert(path@.skip(from as int)[0] == path@[from as int]);
        assert(path@.skip(from as int).drop_first() =~= path@.skip(from + 1));
    }
    if from + 1 == path.len() {
        return Some(p);
    }
    if p.ptype == PropType::Array {
        match &p.items {
            Some(ip) => resolve_from(&ip.properties, path, from + 1),
            None => {
                proof {
                    let rest = path@.skip(from + 1);
                    assert(members_of(*p) == Seq::<(String, Property)>::empty());
                    assert(rest.len() > 0);
                    assert(find_key(Seq::<(String, Property)>::empty(), rest[0]@) is None);
                    assert(resolve(members_of(*p), rest) is None);
                }
                None
            },
        }
    } else {
        resolve_from(&p.properties, path, from + 1)
    }
}

/// Decides whether every name of `names` is a declared property.
pub fn names_declared(props: &Vec<(String, Property)>, names: &Vec<String>) -> (r: bool)
    ensures
        r == all_declared(props@, names@),
{
    let mut i: usize = 0;
    while i < names.len()
        invariant
            0 <= i <= names.len(),
            forall|k: int| 0 <= k < i ==> declared(props@, #[trigger] names@[k]@),
        decreases names.len() - i,
    {
        if key_position(props, names[i].as_str()).is_none() {
            return false;
        }
        i = i + 1;
    }
    true
}

} // verus!
