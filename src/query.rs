use vstd::prelude::*;
use crate::error::DbError;
use crate::schema::{Property, declared};
use crate::value::{key_position, Value, Document, field_of, value_eq, values_equal, str_eq};

verus! {

/// A comparison operator of a query leaf.
#[derive(Debug, Clone, Copy, PartialEq, Eq, Structural)]
pub enum Op {
    Eq,
    Ne,
    Gt,
    Gte,
    Lt,
    Lte,
    In,
}

/// The right-hand side of a comparison: one value, or a list for `$in`.
#[derive(Debug)]
pub enum Operand {
    One(Value),
    Many(Vec<Value>),
}

/// A normalized query: comparisons on fields under conjunctions and disjunctions.
#[derive(Debug)]
pub enum QueryNode {
    Leaf(String, Op, Operand),
    And(Vec<QueryNode>),
    Or(Vec<QueryNode>),
}

/// Lexicographic order on characters.
pub open spec fn chars_lt(a: Seq<char>, b: Seq<char>) -> bool
    decreases a.len(),
{
    if a.len() == 0 {
        b.len() > 0
    } else if b.len() == 0 {
        false
    } else if (a[0] as u32) < (b[0] as u32) {
        true
    } else if a[0] == b[0] {
        chars_lt(a.drop_first(), b.drop_first())
    } else {
        false
    }
}

/// Ordering of a field value against an operand value: `Some(true)` when the
/// field is smaller, `Some(false)` when not; `None` when they are not comparable.
pub open spec fn less(a: Value, b: Value) -> Option<bool> {
    match (a, b) {
        (Value::Number(x), Value::Number(y)) => Some(x < y),
        (Value::Str(x), Value::Str(y)) => Some(chars_lt(x@, y@)),
        _ => None,
    }
}

/// Whether a field value satisfies an ordering comparison with `b`.
pub open spec fn ordered(op: Op, a: Value, b: Value) -> bool {
    match (less(a, b), less(b, a)) {
        (Some(lt), Some(gt)) => match op {
            Op::Gt => gt,
            Op::Gte => !lt,
            Op::Lt => lt,
            Op::Lte => !gt,
            _ => false,
        },
        _ => false,
    }
}

/// Whether value `x` equals one of `vs`.
pub open spec fn one_of(x: Value, vs: Seq<Value>) -> bool {
    exists|i: int| 0 <= i < vs.len() && value_eq(x, #[trigger] vs[i])
}

/// Whether the document fields satisfy the comparison `name op operand`.
pub open spec fn leaf_holds(name: Seq<char>, op: Op, operand: Operand, doc: Seq<(String, Value)>) -> bool {
    let fv = field_of(doc, name);
    match op {
        Op::Eq => match (fv, operand) {
            (Some(x), Operand::One(v)) => value_eq(x, v),
            (None, Operand::One(Value::Null)) => true,
            _ => false,
        },
        Op::Ne => match (fv, operand) {
            (Some(x), Operand::One(v)) => !value_eq(x, v),
            (None, Operand::One(Value::Null)) => false,
            (None, Operand::One(_)) => true,
            _ => false,
        },
        Op::In => match (fv, operand) {
            (Some(x), Operand::Many(vs)) => one_of(x, vs@),
            _ => false,
        },
        _ => match (fv, operand) {
            (Some(x), Operand::One(v)) => ordered(op, x, v),
            _ => false,
        },
    }
}

/// Whether a document's fields satisfy a query.
pub open spec fn holds(q: QueryNode, doc: Seq<(String, Value)>) -> bool
    decreases q,
{
    match q {
        QueryNode::Leaf(name, op, operand) => leaf_holds(name@, op, operand, doc),
        QueryNode::And(cs) => forall|i: int| 0 <= i < cs.len() ==> holds(#[trigger] cs@[i], doc),
        QueryNode::Or(cs) => exists|i: int| 0 <= i < cs.len() && holds(#[trigger] cs@[i], doc),
    }
}

/// Decides the lexicographic order of two strings.
pub fn str_lt(a: &str, b: &str) -> (r: bool)
    ensures
        r == chars_lt(a@, b@),
{
    let n = a.unicode_len();
    let m = b.unicode_len();
    let mut i: usize = 0;
    proof {
        assert(a@.skip(0) =~= a@);
        assert(b@.skip(0) =~= b@);
    }
    while i < n && i < m
        invariant
            0 <= i <= n,
            i <= m,
            n == a@.len(),
            m == b@.len(),
            chars_lt(a@, b@) == chars_lt(a@.skip(i as int), b@.skip(i as int)),
        decreases n - i,
    {
        let c = a.get_char(i);
        let d = b.get_char(i);
        proof {
            assert(a@.skip(i as int)[0] == c);
            assert(b@.skip(i as int)[0] == d);
        }
        if (c as u32) < (d as u32) {
            return true;
        }
        if c != d {
            return false;
        }
        proof {
            assert(a@.skip(i as int).drop_first() =~= a@.skip(i + 1));
            assert(b@.skip(i as int).drop_first() =~= b@.skip(i + 1));
        }
        i = i + 1;
    }
    i < m && i == n
}

/// Decides `less(a, b)`.
pub fn compare_less(a: &Value, b: &Value) -> (r: Option<bool>)
    ensures
        r == less(*a, *b),
{
    match a {
        Value::Number(x) => match b {
            Value::Number(y) => Some(*x < *y),
            _ => None,
        },
        Value::Str(x) => match b {
            Value::Str(y) => Some(str_lt(x.as_str(), y.as_str())),
            _ => None,
        },
        _ => None,
    }
}

/// Decides whether `x` equals one of `vs`.
pub fn contains_value(vs: &Vec<Value>, x: &Value) -> (r: bool)
    ensures
        r == one_of(*x, vs@),
{
    let mut i: usize = 0;
    while i < vs.len()
        invariant
            0 <= i <= vs.len(),
            forall|k: int| 0 <= k < i ==> !value_eq(*x, #[trigger] vs@[k]),
        decreases vs.len() - i,
    {
        if values_equal(x, &vs[i]) {
            return true;
        }
        i = i + 1;
    }
    false
}

/// Decides whether the document satisfies the comparison `name op operand`.
pub fn leaf_matches(name: &String, op: Op, operand: &Operand, doc: &Document) -> (r: bool)
    ensures
        r == leaf_holds(name@, op, *operand, doc.fields@),
{
    let fv = doc.get(name.as_str());
    match op {
        Op::Eq => match (fv, operand) {
            (Some(x), Operand::One(v)) => values_equal(&x, v),
            (None, Operand::One(Value::Null)) => true,
            _ => false,
        },
        Op::Ne => match (fv, operand) {
            (Some(x), Operand::One(v)) => !values_equal(&x, v),
            (None, Operand::One(Value::Null)) => false,
            (None, Operand::One(_)) => true,
            _ => false,
        },
        Op::In => match (fv, operand) {
            (Some(x), Operand::Many(vs)) => contains_value(vs, &x),
            _ => false,
        },
        _ => match (fv, operand) {
            (Some(x), Operand::One(v)) => {
                let lt = compare_less(&x, v);
                let gt = compare_less(v, &x);
                match (lt, gt) {
                    (Some(lt), Some(gt)) => match op {
                        Op::Gt => gt,
                        Op::Gte => !lt,
                        Op::Lt => lt,
                        Op::Lte => !gt,
                        _ => false,
                    },
                    _ => false,
                }
            },
            _ => false,
        },
    }
}

/// The children of a conjunction or disjunction.
pub open spec fn children(q: QueryNode) -> Seq<QueryNode> {
    match q {
        QueryNode::Leaf(..) => Seq::empty(),
        QueryNode::And(cs) => cs@,
        QueryNode::Or(cs) => cs@,
    }
}

pub proof fn lemma_child_smaller(q: QueryNode, i: int)
    requires
        0 <= i < children(q).len(),
    ensures
        decreases_to!(q => children(q)[i]),
{
    match q {
        QueryNode::Leaf(..) => {},
        QueryNode::And(cs) => {
            assert(decreases_to!(q => q->And_0));
            assert(decreases_to!(cs => cs@));
            assert(decreases_to!(cs@ => cs@[i]));
        },
        QueryNode::Or(cs) => {
            assert(decreases_to!(q => q->Or_0));
            assert(decreases_to!(cs => cs@));
            assert(decreases_to!(cs@ => cs@[i]));
        },
    }
}

impl QueryNode {
    /// Evaluates the query against a document.
    pub fn matches(&self, doc: &Document) -> (r: bool)
        ensures
            r == holds(*self, doc.fields@),
        decreases self,
    {
        match self {
            QueryNode::Leaf(name, op, operand) => leaf_matches(name, *op, operand, doc),
            QueryNode::And(cs) => {
                let mut i: usize = 0;
                while i < cs.len()
                    invariant
                        0 <= i <= cs.len(),
                        *self == QueryNode::And(*cs),
                        forall|k: int| 0 <= k < i ==> holds(#[trigger] cs@[k], doc.fields@),
                    decreases cs.len() - i,
                {
                    proof {
                        lemma_child_smaller(*self, i as int);
                    }
                    if !cs[i].matches(doc) {
                        proof {
                            assert(!holds(cs@[i as int], doc.fields@));
                        }
                        return false;
                    }
                    i = i + 1;
                }
                true
            },
            QueryNode::Or(cs) => {
                let mut i: usize = 0;
                while i < cs.len()
                    invariant
                        0 <= i <= cs.len(),
                        *self == QueryNode::Or(*cs),
                        forall|k: int| 0 <= k < i ==> !holds(#[trigger] cs@[k], doc.fields@),
                    decreases cs.len() - i,
                {
                    proof {
                        lemma_child_smaller(*self, i as int);
                    }
                    if cs[i].matches(doc) {
                        proof {
                            assert(holds(cs@[i as int], doc.fields@));
                        }
                        return true;
                    }
                    i = i + 1;
                }
                false
            },
        }
    }
}

/// A clause of a query as the user writes it: a value (meaning equality), an
/// object of operators, or the list of a logical operator.
pub enum RawClause {
    Scalar(Value),
    Ops(Vec<(String, Operand)>),
    Logic(Vec<RawQuery>),
}

/// A query as the user writes it: clauses keyed by a field name, `$and` or `$or`.
pub struct RawQuery {
    pub clauses: Vec<(String, RawClause)>,
}

/// The comparison operator written `name`.
pub open spec fn op_named(name: Seq<char>) -> Option<Op> {
    if name == "$eq"@ {
        Some(Op::Eq)
    } else if name == "$ne"@ {
        Some(Op::Ne)
    } else if name == "$gt"@ {
        Some(Op::Gt)
    } else if name == "$gte"@ {
        Some(Op::Gte)
    } else if name == "$lt"@ {
        Some(Op::Lt)
    } else if name == "$lte"@ {
        Some(Op::Lte)
    } else if name == "$in"@ {
        Some(Op::In)
    } else {
        None
    }
}

/// Whether `node` is the comparison leaf on field `key` written as `entry`.
pub open spec fn leaf_of(key: Seq<char>, entry: (String, Operand), node: QueryNode) -> bool {
    match (op_named(entry.0@), node) {
        (Some(op), QueryNode::Leaf(k, o, x)) => k@ == key && o == op && x == entry.1
            && ((op == Op::In) <==> (entry.1 is Many)),
        _ => false,
    }
}

/// Whether the raw query `raw` parses, under the declared properties, to `node`:
/// the conjunction of its clauses, in order.
pub open spec fn query_parses(props: Seq<(String, Property)>, raw: RawQuery, node: QueryNode) -> bool
    decreases raw,
{
    &&& node is And
    &&& children(node).len() == raw.clauses.len()
    &&& forall|i: int| 0 <= i < raw.clauses.len() ==>
        clause_parses(props, (#[trigger] raw.clauses@[i]).0@, raw.clauses@[i].1, children(node)[i])
}

/// Whether the clause keyed `key` parses to `node`.
pub open spec fn clause_parses(props: Seq<(String, Property)>, key: Seq<char>, clause: RawClause, node: QueryNode) -> bool
    decreases clause,
{
    if key == "$and"@ || key == "$or"@ {
        match clause {
            RawClause::Logic(qs) => {
                &&& qs.len() > 0
                &&& (if key == "$and"@ { node is And } else { node is Or })
                &&& children(node).len() == qs.len()
                &&& forall|i: int| 0 <= i < qs.len() ==> query_parses(props, #[trigger] qs@[i], children(node)[i])
            },
            _ => false,
        }
    } else {
        &&& declared(props, key)
        &&& match clause {
            RawClause::Scalar(v) => match node {
                QueryNode::Leaf(k, o, x) => k@ == key && o == Op::Eq && x == Operand::One(v),
                _ => false,
            },
            RawClause::Ops(es) => es.len() > 0 && ops_parse(key, es@, node),
            RawClause::Logic(_) => false,
        }
    }
}

/// Whether `node` is the conjunction of the comparisons `es` on field `key`.
pub open spec fn ops_parse(key: Seq<char>, es: Seq<(String, Operand)>, node: QueryNode) -> bool {
    &&& node is And
    &&& children(node).len() == es.len()
    &&& forall|j: int| 0 <= j < es.len() ==> leaf_of(key, #[trigger] es[j], children(node)[j])
}

/// Whether the raw query parses at all.
pub open spec fn parsable(props: Seq<(String, Property)>, raw: RawQuery) -> bool {
    exists|n: QueryNode| query_parses(props, raw, n)
}

/// Whether the clause parses at all.
pub open spec fn clause_parsable(props: Seq<(String, Property)>, key: Seq<char>, clause: RawClause) -> bool {
    exists|n: QueryNode| clause_parses(props, key, clause, n)
}

/// Reads the name of a comparison operator.
pub fn op_from_name(name: &str) -> (r: Option<Op>)
    ensures
        r == op_named(name@),
{
    proof {
        reveal_strlit("$eq");
        reveal_strlit("$ne");
        reveal_strlit("$gt");
        reveal_strlit("$gte");
        reveal_strlit("$lt");
        reveal_strlit("$lte");
        reveal_strlit("$in");
    }
    if str_eq(name, "$eq") {
        Some(Op::Eq)
    } else if str_eq(name, "$ne") {
        Some(Op::Ne)
    } else if str_eq(name, "$gt") {
        Some(Op::Gt)
    } else if str_eq(name, "$gte") {
        Some(Op::Gte)
    } else if str_eq(name, "$lt") {
        Some(Op::Lt)
    } else if str_eq(name, "$lte") {
        Some(Op::Lte)
    } else if str_eq(name, "$in") {
        Some(Op::In)
    } else {
        None
    }
}

/// Turns an object of operators on field `key` into the conjunction of its comparisons.
fn parse_ops(key: &String, entries: Vec<(String, Operand)>) -> (r: Result<QueryNode, DbError>)
    ensures
        r is Ok <==> (entries@.len() > 0 && exists|n: QueryNode| ops_parse(key@, entries@, n)),
        r matches Ok(n) ==> ops_parse(key@, entries@, n),
        r is Err ==> r == Err::<QueryNode, DbError>(DbError::QueryError),
{
    let ghost orig = entries@;
    let total = entries.len();
    if total == 0 {
        return Err(DbError::QueryError);
    }
    let mut es = entries;
    proof {
        assert(es@.skip(0) =~= es@);
    }
    let mut out: Vec<QueryNode> = Vec::new();
    let mut i: usize = 0;
    while es.len() > 0
        invariant
            i + es@.len() == orig.len(),
            orig == entries@,
            orig.len() == total,
            es@ == orig.skip(i as int),
            out@.len() == i,
            forall|j: int| 0 <= j < i ==> leaf_of(key@, #[trigger] orig[j], out@[j]),
        decreases es@.len(),
    {
        let (name, x) = es.remove(0);
        proof {
            assert(orig[i as int] == (name, x));
        }
        let op = match op_from_name(name.as_str()) {
            Some(op) => op,
            None => {
                proof {
                    assert(!leaf_of(key@, orig[i as int], out@[0]));
                    assert forall|n: QueryNode| !ops_parse(key@, orig, n) by {
                        if children(n).len() == orig.len() {
                            assert(!leaf_of(key@, orig[i as int], children(n)[i as int]));
                        }
                    }
                }
                return Err(DbError::QueryError);
            },
        };
        let many = matches!(x, Operand::Many(_));
        if (op == Op::In) != many {
            proof {
                assert forall|n: QueryNode| !ops_parse(key@, orig, n) by {
                    if children(n).len() == orig.len() {
                        assert(!leaf_of(key@, orig[i as int], children(n)[i as int]));
                    }
                }
            }
            return Err(DbError::QueryError);
        }
        out.push(QueryNode::Leaf(key.clone(), op, x));
        proof {
            assert(es@ =~= orig.skip(i + 1));
        }
        i = i + 1;
    }
    let n = QueryNode::And(out);
    proof {
        assert(children(n) == out@);
        assert(ops_parse(key@, orig, n));
    }
    Ok(n)
}

pub proof fn lemma_clause_smaller(raw: RawQuery, i: int)
    requires
        0 <= i < raw.clauses@.len(),
    ensures
        decreases_to!(raw => raw.clauses@[i].1),
{
    assert(decreases_to!(raw => raw.clauses));
    assert(decreases_to!(raw.clauses => raw.clauses@));
    assert(decreases_to!(raw.clauses@ => raw.clauses@[i]));
    assert(decreases_to!(raw.clauses@[i] => raw.clauses@[i].1));
}

pub proof fn lemma_logic_smaller(clause: RawClause, i: int)
    requires
        clause is Logic,
        0 <= i < clause->Logic_0@.len(),
    ensures
        decreases_to!(clause => clause->Logic_0@[i]),
{
    let qs = clause->Logic_0;
    assert(decreases_to!(clause => clause->Logic_0));
    assert(decreases_to!(qs => qs@));
    assert(decreases_to!(qs@ => qs@[i]));
}

/// Parses a raw query, under the declared properties, into its normalized form:
/// the conjunction of its clauses.
pub fn parse_query(raw: RawQuery, props: &Vec<(String, Property)>) -> (r: Result<QueryNode, DbError>)
    ensures
        r is Ok <==> parsable(props@, raw),
        r matches Ok(n) ==> query_parses(props@, raw, n),
        r is Err ==> r == Err::<QueryNode, DbError>(DbError::QueryError),
    decreases raw,
{
    let ghost orig = raw;
    let total = raw.clauses.len();
    let mut cl = raw.clauses;
    let mut out: Vec<QueryNode> = Vec::new();
    let mut i: usize = 0;
    proof {
        assert(cl@.skip(0) =~= cl@);
    }
    while cl.len() > 0
        invariant
            orig == raw,
            orig.clauses@.len() == total,
            i + cl@.len() == total,
            cl@ == orig.clauses@.skip(i as int),
            out@.len() == i,
            forall|j: int| 0 <= j < i ==> clause_parses(props@, (#[trigger] orig.clauses@[j]).0@, orig.clauses@[j].1, out@[j]),
        decreases cl@.len(),
    {
        let (key, clause) = cl.remove(0);
        proof {
            assert(orig.clauses@[i as int] == (key, clause));
            lemma_clause_smaller(orig, i as int);
        }
        match parse_clause(key, clause, props) {
            Ok(n) => {
                out.push(n);
            },
            Err(e) => {
                proof {
                    assert forall|n: QueryNode| !query_parses(props@, orig, n) by {
                        if query_parses(props@, orig, n) {
                            assert(clause_parses(props@, orig.clauses@[i as int].0@, orig.clauses@[i as int].1, children(n)[i as int]));
                        }
                    }
                }
                return Err(e);
            },
        }
        proof {
            assert(cl@ =~= orig.clauses@.skip(i + 1));
        }
        i = i + 1;
    }
    let n = QueryNode::And(out);
    proof {
        assert(children(n) == out@);
        assert(query_parses(props@, orig, n));
    }
    Ok(n)
}

/// Parses one clause keyed `key`.
pub fn parse_clause(key: String, clause: RawClause, props: &Vec<(String, Property)>) -> (r: Result<QueryNode, DbError>)
    ensures
        r is Ok <==> clause_parsable(props@, key@, clause),
        r matches Ok(n) ==> clause_parses(props@, key@, clause, n),
        r is Err ==> r == Err::<QueryNode, DbError>(DbError::QueryError),
    decreases clause,
{
    proof {
        reveal_strlit("$and");
        reveal_strlit("$or");
    }
    let ghost orig = clause;
    let is_and = str_eq(key.as_str(), "$and");
    let is_or = str_eq(key.as_str(), "$or");
    if is_and || is_or {
        match clause {
            RawClause::Logic(qs) => {
                let total = qs.len();
                if total == 0 {
                    return Err(DbError::QueryError);
                }
                let mut qs = qs;
                let mut out: Vec<QueryNode> = Vec::new();
                let mut i: usize = 0;
                proof {
                    assert(qs@.skip(0) =~= qs@);
                }
                while qs.len() > 0
                    invariant
                        orig == clause,
                        orig is Logic,
                        orig->Logic_0@.len() == total,
                        i + qs@.len() == total,
                        qs@ == orig->Logic_0@.skip(i as int),
                        out@.len() == i,
                        forall|j: int| 0 <= j < i ==> query_parses(props@, #[trigger] orig->Logic_0@[j], out@[j]),
                    decreases qs@.len(),
                {
                    let q = qs.remove(0);
                    proof {
                        assert(orig->Logic_0@[i as int] == q);
                        lemma_logic_smaller(orig, i as int);
                    }
                    match parse_query(q, props) {
                        Ok(n) => {
                            out.push(n);
                        },
                        Err(e) => {
                            proof {
                                assert forall|n: QueryNode| !clause_parses(props@, key@, orig, n) by {
                                    if clause_parses(props@, key@, orig, n) {
                                        assert(query_parses(props@, orig->Logic_0@[i as int], children(n)[i as int]));
                                    }
                                }
                            }
                            return Err(e);
                        },
                    }
                    proof {
                        assert(qs@ =~= orig->Logic_0@.skip(i + 1));
                    }
                    i = i + 1;
                }
                let n = if is_and {
                    QueryNode::And(out)
                } else {
                    QueryNode::Or(out)
                };
                proof {
                    assert(children(n) == out@);
                    assert(clause_parses(props@, key@, orig, n));
                }
                Ok(n)
            },
            _ => Err(DbError::QueryError),
        }
    } else {
        if key_position(props, key.as_str()).is_none() {
            return Err(DbError::QueryError);
        }
        match clause {
            RawClause::Scalar(v) => {
                let n = QueryNode::Leaf(key, Op::Eq, Operand::One(v));
                proof {
                    assert(clause_parses(props@, key@, orig, n));
                }
                Ok(n)
            },
            RawClause::Ops(es) => {
                let k = key.clone();
                match parse_ops(&k, es) {
                    Ok(n) => {
                        proof {
                            assert(clause_parses(props@, key@, orig, n));
                        }
                        Ok(n)
                    },
                    Err(e) => {
                        proof {
                            assert forall|n: QueryNode| !clause_parses(props@, key@, orig, n) by {
                                if clause_parses(props@, key@, orig, n) {
                                    assert(ops_parse(key@, orig->Ops_0@, n));
                                }
                            }
                        }
                        Err(e)
                    },
                }
            },
            RawClause::Logic(_) => Err(DbError::QueryError),
        }
    }
}

/// The name under which an operator is written.
pub open spec fn op_name(op: Op) -> Seq<char> {
    match op {
        Op::Eq => "$eq"@,
        Op::Ne => "$ne"@,
        Op::Gt => "$gt"@,
        Op::Gte => "$gte"@,
        Op::Lt => "$lt"@,
        Op::Lte => "$lte"@,
        Op::In => "$in"@,
    }
}

pub proof fn lemma_op_name(op: Op)
    ensures
        op_named(op_name(op)) == Some(op),
        op_name(op) != "$and"@,
        op_name(op) != "$or"@,
{
    reveal_strlit("$eq");
    reveal_strlit("$ne");
    reveal_strlit("$gt");
    reveal_strlit("$gte");
    reveal_strlit("$lt");
    reveal_strlit("$lte");
    reveal_strlit("$in");
    reveal_strlit("$and");
    reveal_strlit("$or");
    let e = "$eq"@;
    let n = "$ne"@;
    let g = "$gt"@;
    let ge = "$gte"@;
    let l = "$lt"@;
    let le = "$lte"@;
    let i = "$in"@;
    assert(e[1] != n[1] && e[1] != g[1] && e[1] != l[1] && e[1] != i[1]);
    assert(n[1] != g[1] && n[1] != l[1] && n[1] != i[1] && g[1] != l[1] && g[1] != i[1] && l[1] != i[1]);
    assert(ge.len() != g.len() && le.len() != l.len());
    assert(e[1] != ge[1] && n[1] != ge[1] && e[1] != le[1] && n[1] != le[1] && g[1] != le[1] && ge[1] != l[1]);
    assert(i[1] != ge[1] && i[1] != le[1] && ge[1] != le[1]);
    assert(e[1] != "$and"@[1] && n[1] != "$and"@[1] && g[1] != "$and"@[1] && l[1] != "$and"@[1] && i[1] != "$and"@[1]);
    assert(e[1] != "$or"@[1] && n[1] != "$or"@[1] && g[1] != "$or"@[1] && l[1] != "$or"@[1] && i[1] != "$or"@[1]);
}

/// Writes an operator's name.
pub fn write_op(op: Op) -> (r: String)
    ensures
        r@ == op_name(op),
{
    let name = match op {
        Op::Eq => "$eq",
        Op::Ne => "$ne",
        Op::Gt => "$gt",
        Op::Gte => "$gte",
        Op::Lt => "$lt",
        Op::Lte => "$lte",
        Op::In => "$in",
    };
    name.to_owned()
}

/// Whether a field name is usable as a field clause under the declared properties.
pub open spec fn field_key(props: Seq<(String, Property)>, k: Seq<char>) -> bool {
    declared(props, k) && k != "$and"@ && k != "$or"@
}

/// Whether `n` has the shape that parsing gives a query: a conjunction of clauses.
pub open spec fn top_normal(props: Seq<(String, Property)>, n: QueryNode) -> bool
    decreases n,
{
    match n {
        QueryNode::And(cs) => forall|i: int| 0 <= i < cs.len() ==> clause_normal(props, #[trigger] cs@[i]),
        _ => false,
    }
}

/// Whether `c` has the shape that parsing gives a clause: an equality leaf, a
/// conjunction of comparisons on one field, or a logical operator over queries.
pub open spec fn clause_normal(props: Seq<(String, Property)>, c: QueryNode) -> bool
    decreases c,
{
    match c {
        QueryNode::Leaf(k, op, x) => op == Op::Eq && x is One && field_key(props, k@),
        QueryNode::And(ls) => ls.len() > 0 && match ls@[0] {
            QueryNode::Leaf(k0, _, _) => field_key(props, k0@) && forall|j: int| 0 <= j < ls.len() ==>
                match #[trigger] ls@[j] {
                    QueryNode::Leaf(k, op, x) => k@ == k0@ && ((op == Op::In) <==> (x is Many)),
                    _ => false,
                },
            _ => forall|j: int| 0 <= j < ls.len() ==> top_normal(props, #[trigger] ls@[j]),
        },
        QueryNode::Or(qs) => qs.len() > 0 && forall|j: int| 0 <= j < qs.len() ==> top_normal(props, #[trigger] qs@[j]),
    }
}

/// Parsing is idempotent: whatever a raw query parses to has the normal shape,
/// and the normalized form of a query of that shape parses to that very query
/// (see `normalized_form`).
pub proof fn lemma_parsed_is_normal(props: Seq<(String, Property)>, raw: RawQuery, n: QueryNode)
    requires
        query_parses(props, raw, n),
    ensures
        top_normal(props, n),
    decreases raw,
{
    assert forall|i: int| 0 <= i < children(n).len() implies clause_normal(props, #[trigger] children(n)[i]) by {
        lemma_clause_smaller(raw, i);
        assert(clause_parses(props, raw.clauses@[i].0@, raw.clauses@[i].1, children(n)[i]));
        lemma_parsed_clause_is_normal(props, raw.clauses@[i].0@, raw.clauses@[i].1, children(n)[i]);
    }
}

pub proof fn lemma_parsed_clause_is_normal(props: Seq<(String, Property)>, key: Seq<char>, clause: RawClause, c: QueryNode)
    requires
        clause_parses(props, key, clause, c),
    ensures
        clause_normal(props, c),
    decreases clause,
{
    if key == "$and"@ || key == "$or"@ {
        let qs = clause->Logic_0;
        assert forall|j: int| 0 <= j < qs.len() implies top_normal(props, #[trigger] children(c)[j]) by {
            lemma_logic_smaller(clause, j);
            lemma_parsed_is_normal(props, qs@[j], children(c)[j]);
        }
        if key == "$and"@ {
            let first = children(c)[0];
            assert(top_normal(props, first));
        }
    } else {
        match clause {
            RawClause::Ops(es) => {
                assert(leaf_of(key, es@[0], children(c)[0]));
                assert forall|j: int| 0 <= j < es.len() implies (match #[trigger] children(c)[j] {
                    QueryNode::Leaf(k, op, x) => k@ == key && ((op == Op::In) <==> (x is Many)),
                    _ => false,
                }) by {
                    assert(leaf_of(key, es@[j], children(c)[j]));
                }
            },
            _ => {},
        }
    }
}

/// Writes a parsed query back as a raw query: its normalized form, whose
/// parse is the query itself.
pub fn normalized_form(n: QueryNode) -> (r: RawQuery)
    ensures
        forall|p: Seq<(String, Property)>| #[trigger] top_normal(p, n) ==> query_parses(p, r, n),
    decreases n,
{
    let ghost orig = n;
    match n {
        QueryNode::And(cs) => {
            let total = cs.len();
            let mut cs = cs;
            let mut out: Vec<(String, RawClause)> = Vec::new();
            let mut i: usize = 0;
            proof {
                assert(cs@.skip(0) =~= cs@);
            }
            while cs.len() > 0
                invariant
                    orig == n,
                    orig is And,
                    children(orig).len() == total,
                    i + cs@.len() == total,
                    cs@ == children(orig).skip(i as int),
                    out@.len() == i,
                    forall|j: int| 0 <= j < i ==> forall|p: Seq<(String, Property)>| #[trigger] clause_normal(p, children(orig)[j])
                        ==> clause_parses(p, (#[trigger] out@[j]).0@, out@[j].1, children(orig)[j]),
                decreases cs@.len(),
            {
                let c = cs.remove(0);
                proof {
                    assert(children(orig)[i as int] == c);
                    lemma_child_smaller(orig, i as int);
                }
                let entry = clause_form(c);
                out.push(entry);
                proof {
                    assert(cs@ =~= children(orig).skip(i + 1));
                }
                i = i + 1;
            }
            let r = RawQuery { clauses: out };
            proof {
                assert forall|p: Seq<(String, Property)>| #[trigger] top_normal(p, orig) implies query_parses(p, r, orig) by {
                    assert forall|j: int| 0 <= j < r.clauses@.len() implies
                        clause_parses(p, (#[trigger] r.clauses@[j]).0@, r.clauses@[j].1, children(orig)[j]) by {
                        assert(clause_normal(p, children(orig)[j]));
                        assert(out@[j] == r.clauses@[j]);
                    }
                }
            }
            r
        },
        _ => RawQuery { clauses: Vec::new() },
    }
}

/// Writes one clause of a parsed query back in raw form.
pub fn clause_form(c: QueryNode) -> (r: (String, RawClause))
    ensures
        forall|p: Seq<(String, Property)>| #[trigger] clause_normal(p, c) ==> clause_parses(p, r.0@, r.1, c),
    decreases c,
{
    proof {
        reveal_strlit("$and");
        reveal_strlit("$or");
        assert("$and"@[1] != "$or"@[1]);
    }
    let ghost orig = c;
    match c {
        QueryNode::Leaf(k, op, x) => match x {
            Operand::One(v) => {
                if op == Op::Eq {
                    (k, RawClause::Scalar(v))
                } else {
                    (k, RawClause::Ops(vec![(write_op(op), Operand::One(v))]))
                }
            },
            Operand::Many(vs) => (k, RawClause::Ops(vec![(write_op(op), Operand::Many(vs))])),
        },
        QueryNode::And(ls) => {
            let leaf_first = ls.len() > 0 && matches!(ls[0], QueryNode::Leaf(..));
            if leaf_first {
                let key = match &ls[0] {
                    QueryNode::Leaf(k, _, _) => k.clone(),
                    _ => "".to_owned(),
                };
                let total = ls.len();
                let mut ls = ls;
                let mut es: Vec<(String, Operand)> = Vec::new();
                let mut i: usize = 0;
                proof {
                    assert(ls@.skip(0) =~= ls@);
                }
                while ls.len() > 0
                    invariant
                        orig is And,
                        children(orig).len() == total,
                        children(orig)[0] is Leaf,
                        key@ == children(orig)[0]->Leaf_0@,
                        i + ls@.len() == total,
                        ls@ == children(orig).skip(i as int),
                        es@.len() == i,
                        forall|j: int| 0 <= j < i ==> (children(orig)[j] is Leaf ==>
                            (#[trigger] es@[j]).0@ == op_name(children(orig)[j]->Leaf_1)
                            && es@[j].1 == children(orig)[j]->Leaf_2),
                    decreases ls@.len(),
                {
                    let l = ls.remove(0);
                    proof {
                        assert(children(orig)[i as int] == l);
                    }
                    match l {
                        QueryNode::Leaf(_, op, x) => {
                            es.push((write_op(op), x));
                        },
                        _ => {
                            es.push(("".to_owned(), Operand::Many(Vec::new())));
                        },
                    }
                    proof {
                        assert(ls@ =~= children(orig).skip(i + 1));
                    }
                    i = i + 1;
                }
                let r = (key, RawClause::Ops(es));
                proof {
                    assert forall|p: Seq<(String, Property)>| #[trigger] clause_normal(p, orig) implies
                        clause_parses(p, r.0@, r.1, orig) by {
                        assert forall|j: int| 0 <= j < es@.len() implies
                            leaf_of(key@, #[trigger] es@[j], children(orig)[j]) by {
                            let lj = children(orig)[j];
                            assert(lj is Leaf);
                            lemma_op_name(lj->Leaf_1);
                        }
                        assert(ops_parse(key@, es@, orig));
                    }
                }
                r
            } else {
                let total = ls.len();
                let mut ls = ls;
                let mut qs: Vec<RawQuery> = Vec::new();
                let mut i: usize = 0;
                proof {
                    assert(ls@.skip(0) =~= ls@);
                }
                while ls.len() > 0
                    invariant
                        orig == c,
                        orig is And,
                        children(orig).len() == total,
                        i + ls@.len() == total,
                        ls@ == children(orig).skip(i as int),
                        qs@.len() == i,
                        forall|j: int| 0 <= j < i ==> forall|p: Seq<(String, Property)>| #[trigger] top_normal(p, children(orig)[j])
                            ==> query_parses(p, #[trigger] qs@[j], children(orig)[j]),
                    decreases ls@.len(),
                {
                    let q = ls.remove(0);
                    proof {
                        assert(children(orig)[i as int] == q);
                        lemma_child_smaller(orig, i as int);
                    }
                    qs.push(normalized_form(q));
                    proof {
                        assert(ls@ =~= children(orig).skip(i + 1));
                    }
                    i = i + 1;
                }
                let r = ("$and".to_owned(), RawClause::Logic(qs));
                proof {
                    assert forall|p: Seq<(String, Property)>| #[trigger] clause_normal(p, orig) implies
                        clause_parses(p, r.0@, r.1, orig) by {
                        assert forall|j: int| 0 <= j < qs@.len() implies
                            query_parses(p, #[trigger] qs@[j], children(orig)[j]) by {
                            assert(top_normal(p, children(orig)[j]));
                        }
                    }
                }
                r
            }
        },
        QueryNode::Or(ls) => {
            let total = ls.len();
            let mut ls = ls;
            let mut qs: Vec<RawQuery> = Vec::new();
            let mut i: usize = 0;
            proof {
                assert(ls@.skip(0) =~= ls@);
            }
            while ls.len() > 0
                invariant
                    orig == c,
                    orig is Or,
                    children(orig).len() == total,
                    i + ls@.len() == total,
                    ls@ == children(orig).skip(i as int),
                    qs@.len() == i,
                    forall|j: int| 0 <= j < i ==> forall|p: Seq<(String, Property)>| #[trigger] top_normal(p, children(orig)[j])
                        ==> query_parses(p, #[trigger] qs@[j], children(orig)[j]),
                decreases ls@.len(),
            {
                let q = ls.remove(0);
                proof {
                    assert(children(orig)[i as int] == q);
                    lemma_child_smaller(orig, i as int);
                }
                qs.push(normalized_form(q));
                proof {
                    assert(ls@ =~= children(orig).skip(i + 1));
                }
                i = i + 1;
            }
            let r = ("$or".to_owned(), RawClause::Logic(qs));
            proof {
                assert forall|p: Seq<(String, Property)>| #[trigger] clause_normal(p, orig) implies
                    clause_parses(p, r.0@, r.1, orig) by {
                    assert forall|j: int| 0 <= j < qs@.len() implies
                        query_parses(p, #[trigger] qs@[j], children(orig)[j]) by {
                        assert(top_normal(p, children(orig)[j]));
                    }
                }
            }
            r
        },
    }
}

/// Two parses of one raw query accept the same documents.
pub proof fn lemma_parse_agrees(props: Seq<(String, Property)>, raw: RawQuery, n: QueryNode, m: QueryNode,
    doc: Seq<(String, Value)>)
    requires
        query_parses(props, raw, n),
        query_parses(props, raw, m),
    ensures
        holds(n, doc) == holds(m, doc),
    decreases raw,
{
    assert forall|i: int| 0 <= i < children(n).len() implies
        holds(#[trigger] children(n)[i], doc) == holds(children(m)[i], doc) by {
        lemma_clause_smaller(raw, i);
        assert(clause_parses(props, raw.clauses@[i].0@, raw.clauses@[i].1, children(n)[i]));
        assert(clause_parses(props, raw.clauses@[i].0@, raw.clauses@[i].1, children(m)[i]));
        lemma_clause_agrees(props, raw.clauses@[i].0@, raw.clauses@[i].1, children(n)[i], children(m)[i], doc);
    }
    if holds(n, doc) {
        assert forall|i: int| 0 <= i < children(m).len() implies holds(#[trigger] children(m)[i], doc) by {
            assert(holds(children(n)[i], doc));
        }
    }
    if holds(m, doc) {
        assert forall|i: int| 0 <= i < children(n).len() implies holds(#[trigger] children(n)[i], doc) by {
            assert(holds(children(m)[i], doc));
        }
    }
}

pub proof fn lemma_clause_agrees(props: Seq<(String, Property)>, key: Seq<char>, clause: RawClause, n: QueryNode,
    m: QueryNode, doc: Seq<(String, Value)>)
    requires
        clause_parses(props, key, clause, n),
        clause_parses(props, key, clause, m),
    ensures
        holds(n, doc) == holds(m, doc),
    decreases clause,
{
    if key == "$and"@ || key == "$or"@ {
        let qs = clause->Logic_0;
        assert forall|j: int| 0 <= j < qs.len() implies
            holds(#[trigger] children(n)[j], doc) == holds(children(m)[j], doc) by {
            lemma_logic_smaller(clause, j);
            lemma_parse_agrees(props, qs@[j], children(n)[j], children(m)[j], doc);
        }
        if holds(n, doc) {
            if n is And {
                assert forall|j: int| 0 <= j < children(m).len() implies holds(#[trigger] children(m)[j], doc) by {
                    assert(holds(children(n)[j], doc));
                }
            } else {
                let j = choose|j: int| 0 <= j < children(n).len() && holds(#[trigger] children(n)[j], doc);
                assert(holds(children(m)[j], doc));
            }
        }
        if holds(m, doc) {
            if m is And {
                assert forall|j: int| 0 <= j < children(n).len() implies holds(#[trigger] children(n)[j], doc) by {
                    assert(holds(children(m)[j], doc));
                }
            } else {
                let j = choose|j: int| 0 <= j < children(m).len() && holds(#[trigger] children(m)[j], doc);
                assert(holds(children(n)[j], doc));
            }
        }
    } else {
        match clause {
            RawClause::Ops(es) => {
                assert forall|j: int| 0 <= j < es.len() implies
                    holds(#[trigger] children(n)[j], doc) == holds(children(m)[j], doc) by {
                    assert(leaf_of(key, es@[j], children(n)[j]));
                    assert(leaf_of(key, es@[j], children(m)[j]));
                }
                if holds(n, doc) {
                    assert forall|j: int| 0 <= j < children(m).len() implies holds(#[trigger] children(m)[j], doc) by {
                        assert(holds(children(n)[j], doc));
                    }
                }
                if holds(m, doc) {
                    assert forall|j: int| 0 <= j < children(n).len() implies holds(#[trigger] children(n)[j], doc) by {
                        assert(holds(children(m)[j], doc));
                    }
                }
            },
            _ => {},
        }
    }
}

} // verus!
