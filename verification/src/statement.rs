//! The statement kinds a mapping program is made of: Assign, Delete,
//! OnlyFields, Conditional, Merge, Log and Noop.  Each applies to one
//! record, mutating it in place on success; a failing statement leaves
//! the record untouched and reports a fixed message.

use vstd::prelude::*;
use crate::value::{Value, ValModel, MapModel};
use crate::path::Path;
use crate::record::{Record, path_get, path_insert, path_remove};
use crate::merge::{merge_maps, merged_maps};
use crate::project::{project_map, projected, path_views};
use crate::query::{Expression, QueryValue, QueryModel, eval};
use crate::error::{ErrModel, err_text};
use crate::text::log_text;

verus! {

/// Severity of a diagnostic line.
#[derive(Clone, Copy, PartialEq, Eq, Structural, Debug)]
pub enum LogLevel {
    Trace,
    Debug,
    Info,
    Warn,
    Error,
}

/// Which level a log name denotes, if any.
pub open spec fn level_of_name(s: Seq<char>) -> Option<LogLevel> {
    if s == "trace"@ {
        Some(LogLevel::Trace)
    } else if s == "debug"@ {
        Some(LogLevel::Debug)
    } else if s == "info"@ {
        Some(LogLevel::Info)
    } else if s == "warn"@ {
        Some(LogLevel::Warn)
    } else if s == "error"@ {
        Some(LogLevel::Error)
    } else {
        None
    }
}

impl LogLevel {
    /// Parse a level name; any other name is rejected with a fixed
    /// message.
    pub fn try_from_name(level: &String) -> (r: Result<LogLevel, String>)
        ensures
            match r {
                Ok(l) => level_of_name(level@) == Some(l),
                Err(s) => level_of_name(level@) is None && s@ == "invalid log level"@,
            },
    {
        if level.eq(&"trace".to_owned()) {
            Ok(LogLevel::Trace)
        } else if level.eq(&"debug".to_owned()) {
            Ok(LogLevel::Debug)
        } else if level.eq(&"info".to_owned()) {
            Ok(LogLevel::Info)
        } else if level.eq(&"warn".to_owned()) {
            Ok(LogLevel::Warn)
        } else if level.eq(&"error".to_owned()) {
            Ok(LogLevel::Error)
        } else {
            Err("invalid log level".to_owned())
        }
    }
}

/// One line emitted to the diagnostic sink.
pub struct LogLine {
    pub level: LogLevel,
    pub text: String,
}

/// Models of a sequence of log lines.
pub open spec fn line_views(ls: Seq<LogLine>) -> Seq<(LogLevel, Seq<char>)> {
    Seq::new(ls.len(), |i: int| (ls[i].level, ls[i].text@))
}

/// Outcome of one statement on a record model: the new record and the
/// lines logged, or the failure cause.  A failing statement changes
/// nothing and logs nothing.
pub enum StmtOut {
    Ran(MapModel, Seq<(LogLevel, Seq<char>)>),
    Failed(ErrModel),
}

/// Assign a value computed by an expression to a path.
pub struct Assignment {
    pub path: Path,
    pub function: Expression,
}

impl Assignment {
    pub open spec fn wf(self) -> bool {
        self.path.wf() && self.function.wf()
    }

    pub fn new(path: Path, function: Expression) -> (r: Assignment)
        ensures
            r.path == path,
            r.function == function,
    {
        Assignment { path, function }
    }
}

/// What assigning does: require a concrete value from the expression and
/// write it at the path, creating intermediate levels.
pub open spec fn assign_apply(a: Assignment, m: MapModel) -> StmtOut {
    match eval(a.function, m) {
        Err(e) => StmtOut::Failed(e),
        Ok(QueryModel::Value(v)) => StmtOut::Ran(path_insert(m, a.path@, v), Seq::empty()),
        Ok(_) => StmtOut::Failed(ErrModel::NonValueAssignment),
    }
}

/// Delete a set of paths; absent paths are ignored.
pub struct Deletion {
    pub paths: Vec<Path>,
}

impl Deletion {
    pub open spec fn wf(self) -> bool {
        forall|i: int| 0 <= i < self.paths@.len() ==> (#[trigger] self.paths@[i]).wf()
    }

    pub fn new(paths: Vec<Path>) -> (r: Deletion)
        ensures
            r.paths == paths,
    {
        Deletion { paths }
    }
}

/// Remove each path in turn; ancestors are never compacted.
pub open spec fn remove_all(m: MapModel, ps: Seq<Seq<Seq<char>>>) -> MapModel
    decreases ps.len(),
{
    if ps.len() == 0 {
        m
    } else {
        remove_all(path_remove(m, ps[0]), ps.drop_first())
    }
}

/// What deleting does: remove every named path, never failing.
pub open spec fn delete_apply(d: Deletion, m: MapModel) -> StmtOut {
    StmtOut::Ran(remove_all(m, path_views(d.paths@)), Seq::empty())
}

/// Removing one more path removes it from the result so far.
proof fn lemma_remove_all_take_step(m: MapModel, ps: Seq<Seq<Seq<char>>>, i: int)
    requires
        0 <= i < ps.len(),
    ensures
        remove_all(m, ps.take(i + 1)) == path_remove(remove_all(m, ps.take(i)), ps[i]),
    decreases i,
{
    let e = Seq::<Seq<Seq<char>>>::empty();
    if i == 0 {
        assert(ps.take(1).len() == 1 && ps.take(1)[0] == ps[0]);
        assert(ps.take(1).drop_first() =~= e);
        assert(remove_all(path_remove(m, ps[0]), e) == path_remove(m, ps[0]));
        assert(remove_all(m, ps.take(1)) == remove_all(
            path_remove(m, ps[0]),
            ps.take(1).drop_first(),
        ));
        assert(ps.take(0) =~= e);
        assert(remove_all(m, e) == m);
    } else {
        let m1 = path_remove(m, ps[0]);
        assert(ps.take(i + 1).len() == i + 1 && ps.take(i + 1)[0] == ps[0]);
        assert(ps.take(i).len() == i && ps.take(i)[0] == ps[0]);
        assert(remove_all(m, ps.take(i + 1)) == remove_all(m1, ps.take(i + 1).drop_first()));
        assert(remove_all(m, ps.take(i)) == remove_all(m1, ps.take(i).drop_first()));
        assert(ps.take(i + 1).drop_first() =~= ps.drop_first().take(i));
        assert(ps.take(i).drop_first() =~= ps.drop_first().take(i - 1));
        lemma_remove_all_take_step(m1, ps.drop_first(), i - 1);
        assert(ps.drop_first()[i - 1] == ps[i]);
    }
}

/// Keep only the paths covered by a keep-set.
pub struct OnlyFields {
    pub paths: Vec<Path>,
}

impl OnlyFields {
    pub fn new(paths: Vec<Path>) -> (r: OnlyFields)
        ensures
            r.paths == paths,
    {
        OnlyFields { paths }
    }
}

/// What projection does: replace the record by its projection under the
/// keep paths, never failing.
pub open spec fn only_apply(o: OnlyFields, m: MapModel) -> StmtOut {
    StmtOut::Ran(projected(m, path_views(o.paths@)), Seq::empty())
}

/// Branch on a boolean condition.
pub struct IfStatement {
    pub query: Expression,
    pub true_statement: Box<Statement>,
    pub false_statement: Box<Statement>,
}

impl IfStatement {
    pub open spec fn wf(self) -> bool
        decreases self,
    {
        self.query.wf() && self.true_statement.wf() && self.false_statement.wf()
    }

    pub fn new(query: Expression, true_statement: Box<Statement>, false_statement: Box<
        Statement,
    >) -> (r: IfStatement)
        ensures
            r.query == query,
            r.true_statement == true_statement,
            r.false_statement == false_statement,
    {
        IfStatement { query, true_statement, false_statement }
    }
}

/// What branching does: require a concrete boolean condition, then apply
/// exactly the corresponding branch; any other condition result fails
/// and runs neither branch.
pub open spec fn if_apply(i: IfStatement, m: MapModel) -> StmtOut
    decreases i,
{
    match eval(i.query, m) {
        Err(e) => StmtOut::Failed(e),
        Ok(QueryModel::Value(ValModel::Boolean(true))) => stmt_apply(*i.true_statement, m),
        Ok(QueryModel::Value(ValModel::Boolean(false))) => stmt_apply(*i.false_statement, m),
        Ok(_) => StmtOut::Failed(ErrModel::NonBooleanCondition),
    }
}

/// Do nothing; the structural placeholder for an absent branch.
pub struct Noop {}

impl Noop {
    pub fn new() -> (r: Noop) {
        Noop {  }
    }
}

/// Merge the map an expression evaluates to into the map at a path.
pub struct MergeFn {
    pub to_path: Path,
    pub from: Expression,
    pub deep: Option<Expression>,
}

impl MergeFn {
    pub open spec fn wf(self) -> bool {
        self.to_path.wf() && self.from.wf() && match self.deep {
            Some(d) => d.wf(),
            None => true,
        }
    }

    pub fn new(to_path: Path, from: Expression, deep: Option<Expression>) -> (r: MergeFn)
        ensures
            r.to_path == to_path,
            r.from == from,
            r.deep == deep,
    {
        MergeFn { to_path, from, deep }
    }
}

/// What merging does: evaluate the source, then the optional `deep`
/// flag (a concrete boolean, absent meaning false), then resolve the
/// destination path; both operands must be maps, and the source map is
/// merged into the destination map in place.
pub open spec fn merge_apply(g: MergeFn, m: MapModel) -> StmtOut {
    match eval(g.from, m) {
        Err(e) => StmtOut::Failed(e),
        Ok(fv) => {
            let deep_r: Result<bool, ErrModel> = match g.deep {
                None => Ok(false),
                Some(d) => match eval(d, m) {
                    Err(e) => Err(e),
                    Ok(QueryModel::Value(ValModel::Boolean(b))) => Ok(b),
                    Ok(_) => Err(ErrModel::NonBooleanDeep),
                },
            };
            match deep_r {
                Err(e) => StmtOut::Failed(e),
                Ok(deep) => match path_get(m, g.to_path@) {
                    None => StmtOut::Failed(ErrModel::MergeTargetNotFound(g.to_path@)),
                    Some(tv) => match (tv, fv) {
                        (ValModel::Object(dm), QueryModel::Value(ValModel::Object(sm))) =>
                            StmtOut::Ran(
                            path_insert(m, g.to_path@, ValModel::Object(merged_maps(dm, sm, deep))),
                            Seq::empty(),
                        ),
                        _ => StmtOut::Failed(ErrModel::NonMapMergeOperands),
                    },
                },
            }
        },
    }
}

/// Emit a diagnostic line rendered from an expression's value.
pub struct LogFn {
    pub msg: Expression,
    pub level: Option<LogLevel>,
}

impl LogFn {
    pub open spec fn wf(self) -> bool {
        self.msg.wf()
    }

    pub fn new(msg: Expression, level: Option<LogLevel>) -> (r: LogFn)
        ensures
            r.msg == msg,
            r.level == level,
    {
        LogFn { msg, level }
    }
}

/// What logging does: require a concrete value, render it to text and
/// emit one line at the given level (Info when absent); the record is
/// untouched.
pub open spec fn log_apply(l: LogFn, m: MapModel) -> StmtOut {
    match eval(l.msg, m) {
        Err(e) => StmtOut::Failed(e),
        Ok(QueryModel::Value(v)) => StmtOut::Ran(
            m,
            seq![
                (
                    match l.level {
                        Some(lv) => lv,
                        None => LogLevel::Info,
                    },
                    log_text(v),
                ),
            ],
        ),
        Ok(_) => StmtOut::Failed(ErrModel::NonValueLog),
    }
}

/// One statement of a mapping program.
pub enum Statement {
    Assign(Assignment),
    Delete(Deletion),
    Only(OnlyFields),
    If(IfStatement),
    Merge(MergeFn),
    Log(LogFn),
    Noop(Noop),
}

impl Statement {
    /// Every path inside is well formed.
    pub open spec fn wf(self) -> bool
        decreases self,
    {
        match self {
            Statement::Assign(a) => a.wf(),
            Statement::Delete(d) => d.wf(),
            Statement::Only(_) => true,
            Statement::If(i) => i.wf(),
            Statement::Merge(g) => g.wf(),
            Statement::Log(l) => l.wf(),
            Statement::Noop(_) => true,
        }
    }
}

/// Outcome of one statement on a record model.
pub open spec fn stmt_apply(s: Statement, m: MapModel) -> StmtOut
    decreases s,
{
    match s {
        Statement::Assign(a) => assign_apply(a, m),
        Statement::Delete(d) => delete_apply(d, m),
        Statement::Only(o) => only_apply(o, m),
        Statement::If(i) => if_apply(i, m),
        Statement::Merge(g) => merge_apply(g, m),
        Statement::Log(l) => log_apply(l, m),
        Statement::Noop(_) => StmtOut::Ran(m, Seq::empty()),
    }
}

impl Statement {
    /// Apply this statement to `record`, appending any diagnostic lines
    /// to `sink`.  On failure the record and the sink are untouched.
    pub fn apply(&self, record: &mut Record, sink: &mut Vec<LogLine>) -> (r: Result<(), String>)
        requires
            self.wf(),
        ensures
            match stmt_apply(*self, old(record)@) {
                StmtOut::Ran(m2, logs) => r is Ok && final(record)@ == m2 && line_views(
                    final(sink)@,
                ) == line_views(old(sink)@) + logs,
                StmtOut::Failed(e) => r matches Err(s) && s@ == err_text(e) && final(record)@
                    == old(record)@ && final(sink)@ == old(sink)@,
            },
        decreases self,
    {
        let ghost m0 = record@;
        match self {
            Statement::Assign(a) => {
                let r = apply_assignment(a, record);
                proof {
                    lemma_line_views_unchanged(sink@);
                }
                r
            },
            Statement::Delete(d) => {
                apply_deletion(d, record);
                proof {
                    lemma_line_views_unchanged(sink@);
                }
                Ok(())
            },
            Statement::Only(o) => {
                let pm = project_map(&record.fields, &o.paths);
                record.fields = pm;
                proof {
                    lemma_line_views_unchanged(sink@);
                }
                Ok(())
            },
            Statement::If(i) => {
                match i.query.execute(record) {
                    Err(e) => Err(e),
                    Ok(QueryValue::Value(Value::Boolean(true))) => i.true_statement.apply(
                        record,
                        sink,
                    ),
                    Ok(QueryValue::Value(Value::Boolean(false))) => i.false_statement.apply(
                        record,
                        sink,
                    ),
                    Ok(_) => Err("query returned non-boolean value".to_owned()),
                }
            },
            Statement::Merge(g) => {
                let r = apply_merge(g, record);
                proof {
                    lemma_line_views_unchanged(sink@);
                }
                r
            },
            Statement::Log(l) => apply_log(l, record, sink),
            Statement::Noop(_) => {
                proof {
                    lemma_line_views_unchanged(sink@);
                }
                Ok(())
            },
        }
    }
}

/// A conditional whose condition yields anything but a concrete boolean
/// fails with its fixed message and runs neither branch: the outcome is
/// the failure alone, so neither branch's effect reaches the record.
pub proof fn lemma_conditional_non_boolean(i: IfStatement, m: MapModel, q: QueryModel)
    requires
        eval(i.query, m) == Ok::<QueryModel, ErrModel>(q),
        !(q matches QueryModel::Value(ValModel::Boolean(_))),
    ensures
        stmt_apply(Statement::If(i), m) == StmtOut::Failed(ErrModel::NonBooleanCondition),
{
}

/// Merge fails with its "not found" message exactly when the source and
/// the `deep` flag evaluate but the destination path is absent.
pub proof fn lemma_merge_target_not_found(g: MergeFn, m: MapModel)
    requires
        eval(g.from, m) is Ok,
        match g.deep {
            Some(d) => eval(d, m) matches Ok(QueryModel::Value(ValModel::Boolean(_))),
            None => true,
        },
        path_get(m, g.to_path@) is None,
    ensures
        merge_apply(g, m) == StmtOut::Failed(ErrModel::MergeTargetNotFound(g.to_path@)),
{
}

/// Merge fails with its "non-map" message exactly when everything
/// evaluates and the destination path resolves, but either resolved
/// operand is not a map.
pub proof fn lemma_merge_non_map_operands(g: MergeFn, m: MapModel, fv: QueryModel, tv: ValModel)
    requires
        eval(g.from, m) == Ok::<QueryModel, ErrModel>(fv),
        match g.deep {
            Some(d) => eval(d, m) matches Ok(QueryModel::Value(ValModel::Boolean(_))),
            None => true,
        },
        path_get(m, g.to_path@) == Some(tv),
        !(tv matches ValModel::Object(_) && fv matches QueryModel::Value(ValModel::Object(_))),
    ensures
        merge_apply(g, m) == StmtOut::Failed(ErrModel::NonMapMergeOperands),
{
}

/// An untouched sink gains no lines.
proof fn lemma_line_views_unchanged(ls: Seq<LogLine>)
    ensures
        line_views(ls) == line_views(ls) + Seq::<(LogLevel, Seq<char>)>::empty(),
{
    assert(line_views(ls) =~= line_views(ls) + Seq::<(LogLevel, Seq<char>)>::empty());
}

/// Apply an assignment: see [`assign_apply`].
fn apply_assignment(a: &Assignment, record: &mut Record) -> (r: Result<(), String>)
    requires
        a.wf(),
    ensures
        match assign_apply(*a, old(record)@) {
            StmtOut::Ran(m2, _) => r is Ok && final(record)@ == m2,
            StmtOut::Failed(e) => r matches Err(s) && s@ == err_text(e) && final(record)@ == old(
                record,
            )@,
        },
{
    match a.function.execute(record) {
        Err(e) => Err(e),
        Ok(QueryValue::Value(v)) => {
            record.insert(&a.path, v);
            Ok(())
        },
        Ok(_) => Err("assignment must be from a value".to_owned()),
    }
}

/// Apply a deletion: see [`delete_apply`].
fn apply_deletion(d: &Deletion, record: &mut Record)
    requires
        d.wf(),
    ensures
        final(record)@ == remove_all(old(record)@, path_views(d.paths@)),
{
    let ghost m0 = record@;
    let ghost pv = path_views(d.paths@);
    let n = d.paths.len();
    let mut i: usize = 0;
    proof {
        assert(pv.take(0) =~= Seq::<Seq<Seq<char>>>::empty());
    }
    while i < n
        invariant
            i <= n,
            n == d.paths@.len(),
            pv == path_views(d.paths@),
            pv.len() == n,
            d.wf(),
            record@ == remove_all(m0, pv.take(i as int)),
        decreases n - i,
    {
        proof {
            lemma_remove_all_take_step(m0, pv, i as int);
            assert(pv[i as int] == d.paths@[i as int]@);
        }
        record.remove(&d.paths[i]);
        i += 1;
    }
    proof {
        assert(pv.take(n as int) =~= pv);
    }
}

/// Apply a merge: see [`merge_apply`].
fn apply_merge(g: &MergeFn, record: &mut Record) -> (r: Result<(), String>)
    requires
        g.wf(),
    ensures
        match merge_apply(*g, old(record)@) {
            StmtOut::Ran(m2, _) => r is Ok && final(record)@ == m2,
            StmtOut::Failed(e) => r matches Err(s) && s@ == err_text(e) && final(record)@ == old(
                record,
            )@,
        },
{
    let from_value = match g.from.execute(record) {
        Ok(q) => q,
        Err(e) => {
            return Err(e);
        },
    };
    let deep: bool = match &g.deep {
        None => false,
        Some(d) => match d.execute(record) {
            Ok(QueryValue::Value(Value::Boolean(b))) => b,
            Ok(_) => {
                return Err("deep parameter passed to merge is a non-boolean value".to_owned());
            },
            Err(e) => {
                return Err(e);
            },
        },
    };
    let dest: Option<Option<crate::value::ObjectMap>> = match record.get(&g.to_path) {
        None => None,
        Some(Value::Object(d0)) => Some(Some(d0.duplicate())),
        Some(_) => Some(None),
    };
    match dest {
        None => {
            let mut s = "parameter ".to_owned();
            s.append(g.to_path.render().as_str());
            s.append(" passed to merge is not found");
            Err(s)
        },
        Some(None) => Err("parameters passed to merge are non-map values".to_owned()),
        Some(Some(mut dm)) => match from_value {
            QueryValue::Value(Value::Object(sm)) => {
                merge_maps(&mut dm, &sm, deep);
                record.insert(&g.to_path, Value::Object(dm));
                Ok(())
            },
            _ => Err("parameters passed to merge are non-map values".to_owned()),
        },
    }
}

/// Apply a log statement: see [`log_apply`].
fn apply_log(l: &LogFn, record: &mut Record, sink: &mut Vec<LogLine>) -> (r: Result<(), String>)
    requires
        l.wf(),
    ensures
        match log_apply(*l, old(record)@) {
            StmtOut::Ran(m2, logs) => r is Ok && final(record)@ == m2 && line_views(final(sink)@)
                == line_views(old(sink)@) + logs,
            StmtOut::Failed(e) => r matches Err(s) && s@ == err_text(e) && final(record)@ == old(
                record,
            )@ && final(sink)@ == old(sink)@,
        },
{
    match l.msg.execute(record) {
        Err(e) => Err(e),
        Ok(QueryValue::Value(v)) => {
            let text = v.render_log_text();
            let level = match l.level {
                Some(lv) => lv,
                None => LogLevel::Info,
            };
            sink.push(LogLine { level, text });
            proof {
                match log_apply(*l, record@) {
                    StmtOut::Ran(_, logs) => {
                        assert(line_views(sink@) =~= line_views(old(sink)@) + logs);
                    },
                    StmtOut::Failed(_) => {},
                }
            }
            Ok(())
        },
        Ok(_) => Err("Can only log Value parameters".to_owned()),
    }
}

} // verus!
