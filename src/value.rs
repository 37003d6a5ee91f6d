use vstd::prelude::*;

verus! {

/// A value held in a document field: a scalar, an array, or an object.
#[derive(Debug)]
pub enum Value {
    Null,
    Bool(bool),
    Number(i64),
    Str(String),
    Array(Box<Items>),
    Object(Box<Members>),
}

/// The items of an array, first to last.
#[derive(Debug)]
pub enum Items {
    Nil,
    Cons(Value, Box<Items>),
}

/// The members of an object, in order.
#[derive(Debug)]
pub enum Members {
    Nil,
    Cons(String, Value, Box<Members>),
}

/// A copy of a value, equal to it.
pub fn copy_value(v: &Value) -> (r: Value)
    ensures
        r == *v,
    decreases v,
{
    match v {
        Value::Null => Value::Null,
        Value::Bool(b) => Value::Bool(*b),
        Value::Number(n) => Value::Number(*n),
        Value::Str(s) => Value::Str(s.clone()),
        Value::Array(items) => Value::Array(Box::new(copy_items(items))),
        Value::Object(members) => Value::Object(Box::new(copy_members(members))),
    }
}

/// A copy of a list of items, equal to it.
pub fn copy_items(items: &Items) -> (r: Items)
    ensures
        r == *items,
    decreases items,
{
    match items {
        Items::Nil => Items::Nil,
        Items::Cons(x, rest) => Items::Cons(copy_value(x), Box::new(copy_items(rest))),
    }
}

/// A copy of a list of members, equal to it.
pub fn copy_members(members: &Members) -> (r: Members)
    ensures
        r == *members,
    decreases members,
{
    match members {
        Members::Nil => Members::Nil,
        Members::Cons(k, x, rest) => Members::Cons(k.clone(), copy_value(x), Box::new(copy_members(rest))),
    }
}

impl Clone for Value {
    fn clone(&self) -> (r: Self)
        ensures
            r == *self,
    {
        copy_value(self)
    }
}

/// Strict equality of two values: scalars of the same kind and content.
/// Arrays and objects are compared by identity on the host, so a stored one
/// equals no value written in a query.
pub open spec fn value_eq(a: Value, b: Value) -> bool {
    match (a, b) {
        (Value::Null, Value::Null) => true,
        (Value::Bool(x), Value::Bool(y)) => x == y,
        (Value::Number(x), Value::Number(y)) => x == y,
        (Value::Str(x), Value::Str(y)) => x@ == y@,
        _ => false,
    }
}

/// Decides strict equality of two values.
pub fn values_equal(a: &Value, b: &Value) -> (r: bool)
    ensures
        r == value_eq(*a, *b),
{
    match a {
        Value::Null => match b {
            Value::Null => true,
            _ => false,
        },
        Value::Bool(x) => match b {
            Value::Bool(y) => *x == *y,
            _ => false,
        },
        Value::Number(x) => match b {
            Value::Number(y) => *x == *y,
            _ => false,
        },
        Value::Str(x) => match b {
            Value::Str(y) => str_eq(x.as_str(), y.as_str()),
            _ => false,
        },
        _ => false,
    }
}

/// Decides whether two strings hold the same characters.
pub fn str_eq(a: &str, b: &str) -> (r: bool)
    ensures
        r == (a@ == b@),
{
    let x: String = a.to_owned();
    let y: String = b.to_owned();
    x == y
}

/// A document: an object whose fields are named scalar values.
pub struct Document {
    pub fields: Vec<(String, Value)>,
}

/// The field names of a sequence of fields.
pub open spec fn keys_of(fields: Seq<(String, Value)>) -> Seq<Seq<char>> {
    fields.map_values(|f: (String, Value)| f.0@)
}

/// The position of the first entry named `name`, if any.
pub open spec fn find_key<V>(fields: Seq<(String, V)>, name: Seq<char>) -> Option<int>
    decreases fields.len(),
{
    if fields.len() == 0 {
        None
    } else {
        match find_key(fields.drop_last(), name) {
            Some(i) => Some(i),
            None => if fields.last().0@ == name {
                Some(fields.len() - 1)
            } else {
                None
            },
        }
    }
}

/// The value of the field named `name`, if the document has one.
pub open spec fn field_of(fields: Seq<(String, Value)>, name: Seq<char>) -> Option<Value> {
    match find_key(fields, name) {
        Some(i) => Some(fields[i].1),
        None => None,
    }
}

/// `fields` with the field `name` set to `v`: replaced where present, else appended.
pub open spec fn with_field(fields: Seq<(String, Value)>, name: String, v: Value) -> Seq<(String, Value)> {
    match find_key(fields, name@) {
        Some(i) => fields.update(i, (fields[i].0, v)),
        None => fields.push((name, v)),
    }
}

/// Whether `new` is `old` with the field `name` set to `v`: replaced where
/// present, else appended.
pub open spec fn field_set(old: Seq<(String, Value)>, new: Seq<(String, Value)>, name: Seq<char>, v: Value) -> bool {
    match find_key(old, name) {
        Some(i) => new == old.update(i, (old[i].0, v)),
        None => new.len() == old.len() + 1 && new.drop_last() == old && new.last().0@ == name
            && new.last().1 == v,
    }
}

/// Setting a field makes it read back, and leaves every other field as it was.
pub proof fn lemma_field_set(old: Seq<(String, Value)>, new: Seq<(String, Value)>, name: Seq<char>, v: Value)
    requires
        field_set(old, new, name, v),
    ensures
        field_of(new, name) == Some(v),
        forall|other: Seq<char>| other != name ==> #[trigger] field_of(new, other) == field_of(old, other),
{
    lemma_find_key(old, name);
    lemma_find_key(new, name);
    match find_key(old, name) {
        Some(i) => {
            assert forall|other: Seq<char>| other != name implies #[trigger] field_of(new, other) == field_of(old, other) by {
                lemma_find_key(old, other);
                lemma_find_key(new, other);
                match find_key(old, other) {
                    Some(j) => {
                        lemma_find_key_first(new, other, j);
                    },
                    None => {},
                }
            }
            lemma_find_key_first(new, name, i);
        },
        None => {
            assert forall|other: Seq<char>| other != name implies #[trigger] field_of(new, other) == field_of(old, other) by {
                lemma_find_key(old, other);
                lemma_find_key(new, other);
                match find_key(old, other) {
                    Some(j) => {
                        assert(new[j] == old[j]);
                        assert forall|k: int| 0 <= k < j implies new[k].0@ != other by {
                            assert(new[k] == old[k]);
                        }
                        lemma_find_key_first(new, other, j);
                    },
                    None => {
                        assert forall|k: int| 0 <= k < new.len() implies new[k].0@ != other by {
                            if k < old.len() {
                                assert(new[k] == old[k]);
                            }
                        }
                    },
                }
            }
            assert forall|k: int| 0 <= k < old.len() implies new[k].0@ != name by {
                assert(new[k] == old[k]);
            }
            lemma_find_key_first(new, name, old.len() as int);
        },
    }
}

pub proof fn lemma_find_key<V>(fields: Seq<(String, V)>, name: Seq<char>)
    ensures
        match find_key(fields, name) {
            Some(i) => 0 <= i < fields.len() && fields[i].0@ == name
                && forall|j: int| 0 <= j < i ==> fields[j].0@ != name,
            None => forall|j: int| 0 <= j < fields.len() ==> fields[j].0@ != name,
        },
    decreases fields.len(),
{
    if fields.len() > 0 {
        let init = fields.drop_last();
        lemma_find_key(init, name);
        assert forall|j: int| 0 <= j < init.len() implies init[j] == fields[j] by {}
    }
}

/// Locates the first field named `name`.
pub fn key_position<V>(fields: &Vec<(String, V)>, name: &str) -> (r: Option<usize>)
    ensures
        match r {
            Some(i) => i < fields.len() && find_key(fields@, name@) == Some(i as int),
            None => find_key(fields@, name@).is_none(),
        },
{
    let mut i: usize = 0;
    while i < fields.len()
        invariant
            0 <= i <= fields.len(),
            forall|j: int| 0 <= j < i ==> fields@[j].0@ != name@,
        decreases fields.len() - i,
    {
        if str_eq(fields[i].0.as_str(), name) {
            proof {
                lemma_find_key(fields@, name@);
                lemma_find_key_first(fields@, name@, i as int);
            }
            return Some(i);
        }
        i = i + 1;
    }
    proof {
        lemma_find_key(fields@, name@);
    }
    None
}

pub proof fn lemma_find_key_first<V>(fields: Seq<(String, V)>, name: Seq<char>, i: int)
    requires
        0 <= i < fields.len(),
        fields[i].0@ == name,
        forall|j: int| 0 <= j < i ==> fields[j].0@ != name,
    ensures
        find_key(fields, name) == Some(i),
{
    lemma_find_key(fields, name);
}

impl Document {
    /// A copy of the document with the same fields in the same order.
    pub fn copy(&self) -> (r: Document)
        ensures
            r.fields@ == self.fields@,
    {
        let mut out: Vec<(String, Value)> = Vec::new();
        let mut i: usize = 0;
        while i < self.fields.len()
            invariant
                0 <= i <= self.fields.len(),
                out@ == self.fields@.subrange(0, i as int),
            decreases self.fields.len() - i,
        {
            let k = self.fields[i].0.clone();
            let v = self.fields[i].1.clone();
            out.push((k, v));
            proof {
                assert(out@ =~= self.fields@.subrange(0, i + 1));
            }
            i = i + 1;
        }
        assert(out@ =~= self.fields@);
        Document { fields: out }
    }

    /// The value of the field `name`, if present.
    pub fn get(&self, name: &str) -> (r: Option<Value>)
        ensures
            r == field_of(self.fields@, name@),
    {
        match key_position(&self.fields, name) {
            Some(i) => Some(self.fields[i].1.clone()),
            None => None,
        }
    }

    /// Sets the field `name` to `v`, replacing an existing value or appending the field.
    pub fn set(&mut self, name: String, v: Value)
        ensures
            final(self).fields@ == with_field(old(self).fields@, name, v),
            field_set(old(self).fields@, final(self).fields@, name@, v),
    {
        match key_position(&self.fields, name.as_str()) {
            Some(i) => {
                let k = self.fields[i].0.clone();
                self.fields.set(i, (k, v));
            },
            None => {
                self.fields.push((name, v));
                proof {
                    assert(self.fields@.drop_last() =~= old(self).fields@);
                }
            },
        }
    }
}

} // verus!

verus! {

/// A copy of a list of strings.
pub fn copy_strings(v: &Vec<String>) -> (r: Vec<String>)
    ensures
        r@ == v@,
{
    let mut out: Vec<String> = Vec::new();
    let mut i: usize = 0;
    while i < v.len()
        invariant
            0 <= i <= v.len(),
            out@ == v@.subrange(0, i as int),
        decreases v.len() - i,
    {
        out.push(v[i].clone());
        proof {
            assert(out@ =~= v@.subrange(0, i + 1));
        }
        i = i + 1;
    }
    assert(out@ =~= v@);
    out
}

} // verus!
