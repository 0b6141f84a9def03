//! The expressions a statement evaluates against a record: literals,
//! path reads, equality comparisons, and match patterns.  Evaluation
//! produces either a concrete value or a non-materializable result;
//! statements that need a concrete value treat the latter as a type
//! error.

use vstd::prelude::*;
use crate::value::{Value, ObjectMap, ValModel, MapModel};
use crate::value::lemma_entries_model;
use crate::path::Path;
use crate::record::{Record, path_get};
use crate::error::{ErrModel, err_text};

verus! {

/// What evaluating an expression yields: a concrete value, or a
/// non-materializable match pattern.
pub enum QueryValue {
    Value(Value),
    Regex(String),
}

/// Model of a [`QueryValue`].
pub enum QueryModel {
    Value(ValModel),
    Regex(Seq<char>),
}

impl View for QueryValue {
    type V = QueryModel;

    open spec fn view(&self) -> QueryModel {
        match self {
            QueryValue::Value(v) => QueryModel::Value(v@),
            QueryValue::Regex(s) => QueryModel::Regex(s@),
        }
    }
}

/// A side-effect-free computation over a record.
pub enum Expression {
    /// A constant value.
    Literal(Value),
    /// The value at a path in the record.
    Query(Path),
    /// Equality of two sub-expressions' values.
    Equals(Box<Expression>, Box<Expression>),
    /// A match pattern, which no statement can materialize.
    Pattern(String),
}

impl Expression {
    /// Every path inside is well formed.
    pub open spec fn wf(self) -> bool
        decreases self,
    {
        match self {
            Expression::Literal(_) => true,
            Expression::Query(p) => p.wf(),
            Expression::Equals(l, r) => l.wf() && r.wf(),
            Expression::Pattern(_) => true,
        }
    }
}

/// What evaluating `e` against a record yields, or why it fails.
pub open spec fn eval(e: Expression, m: MapModel) -> Result<QueryModel, ErrModel>
    decreases e,
{
    match e {
        Expression::Literal(v) => Ok(QueryModel::Value(v@)),
        Expression::Query(p) => match path_get(m, p@) {
            Some(v) => Ok(QueryModel::Value(v)),
            None => Err(ErrModel::QueryPathNotFound(p@)),
        },
        Expression::Equals(l, r) => match eval(*l, m) {
            Err(e1) => Err(e1),
            Ok(lq) => match eval(*r, m) {
                Err(e2) => Err(e2),
                Ok(rq) => match (lq, rq) {
                    (QueryModel::Value(a), QueryModel::Value(b)) => Ok(
                        QueryModel::Value(ValModel::Boolean(a == b)),
                    ),
                    _ => Err(ErrModel::NonValueEquality),
                },
            },
        },
        Expression::Pattern(s) => Ok(QueryModel::Regex(s@)),
    }
}

/// Whether two byte vectors hold the same bytes.
fn bytes_eq(a: &Vec<u8>, b: &Vec<u8>) -> (r: bool)
    ensures
        r == (a@ == b@),
{
    let n = a.len();
    if n != b.len() {
        return false;
    }
    let mut i: usize = 0;
    while i < n
        invariant
            i <= n,
            n == a@.len(),
            n == b@.len(),
            forall|j: int| 0 <= j < i ==> a@[j] == b@[j],
        decreases n - i,
    {
        if a[i] != b[i] {
            return false;
        }
        i += 1;
    }
    proof {
        assert(a@ =~= b@);
    }
    true
}

/// Whether two values have the same model: same variant, same payload,
/// and for maps the same entries in the same order.
pub fn value_eq(a: &Value, b: &Value) -> (r: bool)
    ensures
        r == (a@ == b@),
    decreases a,
{
    match (a, b) {
        (Value::Bytes(x), Value::Bytes(y)) => bytes_eq(x, y),
        (Value::Integer(x), Value::Integer(y)) => *x == *y,
        (Value::Boolean(x), Value::Boolean(y)) => *x == *y,
        (Value::Object(x), Value::Object(y)) => map_eq(x, y),
        _ => false,
    }
}

/// Whether two maps have the same model.
fn map_eq(x: &ObjectMap, y: &ObjectMap) -> (r: bool)
    ensures
        r == (x@ == y@),
    decreases x,
{
    proof {
        lemma_entries_model(x.entries@);
        lemma_entries_model(y.entries@);
    }
    let n = x.entries.len();
    if n != y.entries.len() {
        return false;
    }
    let mut i: usize = 0;
    while i < n
        invariant
            i <= n,
            n == x.entries@.len(),
            n == y.entries@.len(),
            x@.len() == n,
            y@.len() == n,
            forall|j: int| 0 <= j < n ==> x@[j] == (x.entries@[j].0@, x.entries@[j].1@),
            forall|j: int| 0 <= j < n ==> y@[j] == (y.entries@[j].0@, y.entries@[j].1@),
            forall|j: int| 0 <= j < i ==> x@[j] == y@[j],
        decreases n - i,
    {
        let ex = &x.entries[i];
        let ey = &y.entries[i];
        if !ex.0.eq(&ey.0) {
            proof {
                assert(x@[i as int].0 != y@[i as int].0);
            }
            return false;
        }
        if !value_eq(&ex.1, &ey.1) {
            proof {
                assert(x@[i as int].1 != y@[i as int].1);
            }
            return false;
        }
        i += 1;
    }
    proof {
        assert(x@ =~= y@);
    }
    true
}

impl Expression {
    /// Evaluate this expression against `record`.
    pub fn execute(&self, record: &Record) -> (r: Result<QueryValue, String>)
        requires
            self.wf(),
        ensures
            match eval(*self, record@) {
                Ok(q) => r matches Ok(qv) && qv@ == q,
                Err(e) => r matches Err(s) && s@ == err_text(e),
            },
        decreases self,
    {
        match self {
            Expression::Literal(v) => Ok(QueryValue::Value(v.duplicate())),
            Expression::Query(p) => match record.get(p) {
                Some(v) => Ok(QueryValue::Value(v.duplicate())),
                None => {
                    let mut s = "path ".to_owned();
                    s.append(p.render().as_str());
                    s.append(" not found in record");
                    Err(s)
                },
            },
            Expression::Equals(l, r) => match l.execute(record) {
                Err(e1) => Err(e1),
                Ok(lq) => match r.execute(record) {
                    Err(e2) => Err(e2),
                    Ok(rq) => match (lq, rq) {
                        (QueryValue::Value(a), QueryValue::Value(b)) => Ok(
                            QueryValue::Value(Value::Boolean(value_eq(&a, &b))),
                        ),
                        _ => Err("equality can only compare values".to_owned()),
                    },
                },
            },
            Expression::Pattern(s) => Ok(QueryValue::Regex(s.clone())),
        }
    }
}

} // verus!
