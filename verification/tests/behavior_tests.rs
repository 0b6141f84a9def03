use mapping::value::{Value, ObjectMap};
use mapping::path::Path;
use mapping::record::Record;
use mapping::query::{Expression, value_eq};
use mapping::statement::{
    Statement, Assignment, Deletion, OnlyFields, IfStatement, MergeFn, LogFn, Noop, LogLevel,
    LogLine,
};
use mapping::mapping::Mapping;
use mapping::text::u64_to_string;

fn p(segs: &[&str]) -> Path {
    Path::new(segs.iter().map(|x| x.to_string()).collect())
}

fn b(x: &str) -> Value {
    Value::Bytes(x.as_bytes().to_vec())
}

fn same_record(a: &Record, other: &Record) -> bool {
    value_eq(
        &Value::Object(a.fields.duplicate()),
        &Value::Object(other.fields.duplicate()),
    )
}

fn run_one(statement: Statement, event: &mut Record) -> (Result<(), String>, Vec<LogLine>) {
    let mut sink: Vec<LogLine> = Vec::new();
    let r = Mapping::new(vec![statement]).execute(event, &mut sink);
    (r, sink)
}

#[test]
fn empty_mapping_changes_nothing() {
    let mut event = Record::new();
    event.insert(&p(&["a"]), b("one"));
    event.insert(&p(&["c", "d"]), b("two"));
    let expected = {
        let mut e = Record::new();
        e.insert(&p(&["a"]), b("one"));
        e.insert(&p(&["c", "d"]), b("two"));
        e
    };
    let mut sink: Vec<LogLine> = Vec::new();
    assert_eq!(Mapping::new(vec![]).execute(&mut event, &mut sink), Ok(()));
    assert!(same_record(&event, &expected));
    assert_eq!(sink.len(), 0);
}

#[test]
fn assign_overwrites_and_keeps_siblings() {
    let mut event = Record::new();
    event.insert(&p(&["a"]), b("old"));
    event.insert(&p(&["sibling"]), b("keep"));
    let statement = Statement::Assign(Assignment::new(p(&["a"]), Expression::Literal(b("new"))));
    let (r, _) = run_one(statement, &mut event);
    assert_eq!(r, Ok(()));
    let expected = {
        let mut e = Record::new();
        e.insert(&p(&["a"]), b("new"));
        e.insert(&p(&["sibling"]), b("keep"));
        e
    };
    assert!(same_record(&event, &expected));
}

#[test]
fn assign_creates_intermediate_levels() {
    let mut event = Record::new();
    let statement = Statement::Assign(Assignment::new(
        p(&["a", "b", "c"]),
        Expression::Literal(b("deep")),
    ));
    let (r, _) = run_one(statement, &mut event);
    assert_eq!(r, Ok(()));
    let expected = {
        let mut e = Record::new();
        e.insert(&p(&["a", "b", "c"]), b("deep"));
        e
    };
    assert!(same_record(&event, &expected));
}

#[test]
fn delete_absent_path_is_a_noop() {
    let mut event = Record::new();
    event.insert(&p(&["a"]), b("one"));
    let expected = {
        let mut e = Record::new();
        e.insert(&p(&["a"]), b("one"));
        e
    };
    let statement = Statement::Delete(Deletion::new(vec![p(&["nope"]), p(&["a", "below_leaf"])]));
    let (r, _) = run_one(statement, &mut event);
    assert_eq!(r, Ok(()));
    assert!(same_record(&event, &expected));
}

#[test]
fn delete_keeps_emptied_ancestors() {
    let mut event = Record::new();
    event.insert(&p(&["a", "b"]), b("one"));
    let statement = Statement::Delete(Deletion::new(vec![p(&["a", "b"])]));
    let (r, _) = run_one(statement, &mut event);
    assert_eq!(r, Ok(()));
    let expected = {
        let mut e = Record::new();
        e.insert(&p(&["a"]), Value::Object(ObjectMap::new()));
        e
    };
    assert!(same_record(&event, &expected));
}

#[test]
fn only_fields_with_no_keeps_clears_the_record() {
    let mut event = Record::new();
    event.insert(&p(&["a"]), b("one"));
    event.insert(&p(&["c", "d"]), b("two"));
    let statement = Statement::Only(OnlyFields::new(vec![]));
    let (r, _) = run_one(statement, &mut event);
    assert_eq!(r, Ok(()));
    assert!(same_record(&event, &Record::new()));
}

#[test]
fn conditional_error_leaves_record_untouched() {
    let mut event = Record::new();
    event.insert(&p(&["bar"]), b("buz"));
    let expected = {
        let mut e = Record::new();
        e.insert(&p(&["bar"]), b("buz"));
        e
    };
    let statement = Statement::If(IfStatement::new(
        Expression::Query(p(&["bar"])),
        Box::new(Statement::Assign(Assignment::new(
            p(&["foo"]),
            Expression::Literal(b("x")),
        ))),
        Box::new(Statement::Noop(Noop::new())),
    ));
    let (r, sink) = run_one(statement, &mut event);
    assert_eq!(
        r,
        Err("failed to apply mapping 0: query returned non-boolean value".to_string())
    );
    assert!(same_record(&event, &expected));
    assert_eq!(sink.len(), 0);
}

#[test]
fn mapping_aborts_at_first_failure() {
    let mut event = Record::new();
    let program = Mapping::new(vec![
        Statement::Assign(Assignment::new(p(&["a"]), Expression::Literal(b("x")))),
        Statement::Log(LogFn::new(Expression::Literal(b("ran")), None)),
        Statement::Assign(Assignment::new(
            p(&["bad"]),
            Expression::Pattern("pat".to_string()),
        )),
        Statement::Assign(Assignment::new(p(&["never"]), Expression::Literal(b("y")))),
    ]);
    let mut sink: Vec<LogLine> = Vec::new();
    let r = program.execute(&mut event, &mut sink);
    assert_eq!(
        r,
        Err("failed to apply mapping 2: assignment must be from a value".to_string())
    );
    let expected = {
        let mut e = Record::new();
        e.insert(&p(&["a"]), b("x"));
        e
    };
    assert!(same_record(&event, &expected));
    assert_eq!(sink.len(), 1);
    assert_eq!(sink[0].text, "ran".to_string());
}

#[test]
fn failure_index_renders_in_decimal() {
    let mut statements: Vec<Statement> = Vec::new();
    for _ in 0..10 {
        statements.push(Statement::Noop(Noop::new()));
    }
    statements.push(Statement::Assign(Assignment::new(
        p(&["bad"]),
        Expression::Pattern("pat".to_string()),
    )));
    let mut event = Record::new();
    let mut sink: Vec<LogLine> = Vec::new();
    let r = Mapping::new(statements).execute(&mut event, &mut sink);
    assert_eq!(
        r,
        Err("failed to apply mapping 10: assignment must be from a value".to_string())
    );
}

#[test]
fn merge_destination_not_found_message_names_the_path() {
    let mut event = Record::new();
    event.insert(&p(&["src"]), {
        let mut m = ObjectMap::new();
        m.insert("k".to_string(), b("v"));
        Value::Object(m)
    });
    let statement = Statement::Merge(MergeFn::new(
        p(&["a", "b"]),
        Expression::Query(p(&["src"])),
        None,
    ));
    let (r, _) = run_one(statement, &mut event);
    assert_eq!(
        r,
        Err("failed to apply mapping 0: parameter a.b passed to merge is not found".to_string())
    );
}

#[test]
fn merge_deep_flag_must_be_boolean() {
    let mut event = Record::new();
    event.insert(&p(&["dst"]), Value::Object(ObjectMap::new()));
    event.insert(&p(&["src"]), Value::Object(ObjectMap::new()));
    let statement = Statement::Merge(MergeFn::new(
        p(&["dst"]),
        Expression::Query(p(&["src"])),
        Some(Expression::Literal(b("x"))),
    ));
    let (r, _) = run_one(statement, &mut event);
    assert_eq!(
        r,
        Err(
            "failed to apply mapping 0: deep parameter passed to merge is a non-boolean value"
                .to_string()
        )
    );
}

#[test]
fn query_of_missing_path_reports_it() {
    let mut event = Record::new();
    let statement = Statement::Assign(Assignment::new(
        p(&["a"]),
        Expression::Query(p(&["missing"])),
    ));
    let (r, _) = run_one(statement, &mut event);
    assert_eq!(
        r,
        Err("failed to apply mapping 0: path missing not found in record".to_string())
    );
}

#[test]
fn equality_needs_value_operands() {
    let mut event = Record::new();
    let statement = Statement::If(IfStatement::new(
        Expression::Equals(
            Box::new(Expression::Pattern("pat".to_string())),
            Box::new(Expression::Literal(b("x"))),
        ),
        Box::new(Statement::Noop(Noop::new())),
        Box::new(Statement::Noop(Noop::new())),
    ));
    let (r, _) = run_one(statement, &mut event);
    assert_eq!(
        r,
        Err("failed to apply mapping 0: equality can only compare values".to_string())
    );
}

#[test]
fn log_requires_a_value() {
    let mut event = Record::new();
    let statement = Statement::Log(LogFn::new(Expression::Pattern("pat".to_string()), None));
    let (r, sink) = run_one(statement, &mut event);
    assert_eq!(
        r,
        Err("failed to apply mapping 0: Can only log Value parameters".to_string())
    );
    assert_eq!(sink.len(), 0);
}

#[test]
fn log_emits_text_at_the_default_level() {
    let mut event = Record::new();
    let statement = Statement::Log(LogFn::new(Expression::Literal(b("hello there")), None));
    let (r, sink) = run_one(statement, &mut event);
    assert_eq!(r, Ok(()));
    assert_eq!(sink.len(), 1);
    assert!(sink[0].level == LogLevel::Info);
    assert_eq!(sink[0].text, "hello there".to_string());
}

#[test]
fn log_decodes_invalid_utf8_lossily() {
    let mut event = Record::new();
    let statement = Statement::Log(LogFn::new(
        Expression::Literal(Value::Bytes(vec![0xff, 0x68, 0x69])),
        Some(LogLevel::Warn),
    ));
    let (r, sink) = run_one(statement, &mut event);
    assert_eq!(r, Ok(()));
    assert_eq!(sink.len(), 1);
    assert!(sink[0].level == LogLevel::Warn);
    assert_eq!(sink[0].text, "\u{fffd}hi".to_string());
}

#[test]
fn log_renders_scalars_and_maps() {
    let mut event = Record::new();
    let mut inner = ObjectMap::new();
    inner.insert("num".to_string(), Value::Integer(-42));
    inner.insert("flag".to_string(), Value::Boolean(true));
    let program = Mapping::new(vec![
        Statement::Log(LogFn::new(Expression::Literal(Value::Integer(0)), None)),
        Statement::Log(LogFn::new(Expression::Literal(Value::Object(inner)), None)),
    ]);
    let mut sink: Vec<LogLine> = Vec::new();
    assert_eq!(program.execute(&mut event, &mut sink), Ok(()));
    assert_eq!(sink.len(), 2);
    assert_eq!(sink[0].text, "0".to_string());
    assert_eq!(sink[1].text, "{num: -42, flag: true}".to_string());
}

#[test]
fn log_level_names_parse() {
    assert_eq!(
        LogLevel::try_from_name(&"trace".to_string()),
        Ok(LogLevel::Trace)
    );
    assert_eq!(
        LogLevel::try_from_name(&"debug".to_string()),
        Ok(LogLevel::Debug)
    );
    assert_eq!(
        LogLevel::try_from_name(&"info".to_string()),
        Ok(LogLevel::Info)
    );
    assert_eq!(
        LogLevel::try_from_name(&"warn".to_string()),
        Ok(LogLevel::Warn)
    );
    assert_eq!(
        LogLevel::try_from_name(&"error".to_string()),
        Ok(LogLevel::Error)
    );
    assert_eq!(
        LogLevel::try_from_name(&"loud".to_string()),
        Err("invalid log level".to_string())
    );
}

#[test]
fn merge_shallow_replaces_nested_maps_wholesale() {
    let mut event = Record::new();
    let mut dst = ObjectMap::new();
    let mut dst_child = ObjectMap::new();
    dst_child.insert("a".to_string(), Value::Integer(1));
    dst.insert("child".to_string(), Value::Object(dst_child));
    let mut src = ObjectMap::new();
    let mut src_child = ObjectMap::new();
    src_child.insert("b".to_string(), Value::Integer(2));
    src.insert("child".to_string(), Value::Object(src_child));
    event.insert(&p(&["dst"]), Value::Object(dst));
    event.insert(&p(&["src"]), Value::Object(src));
    let statement = Statement::Merge(MergeFn::new(
        p(&["dst"]),
        Expression::Query(p(&["src"])),
        Some(Expression::Literal(Value::Boolean(false))),
    ));
    let (r, _) = run_one(statement, &mut event);
    assert_eq!(r, Ok(()));
    let expected = {
        let mut e = Record::new();
        e.insert(&p(&["dst", "child", "b"]), Value::Integer(2));
        e.insert(&p(&["src", "child", "b"]), Value::Integer(2));
        e
    };
    assert!(same_record(&event, &expected));
}

#[test]
fn merge_deep_merges_nested_maps_key_by_key() {
    let mut event = Record::new();
    event.insert(&p(&["dst", "child", "a"]), Value::Integer(1));
    event.insert(&p(&["src", "child", "b"]), Value::Integer(2));
    let statement = Statement::Merge(MergeFn::new(
        p(&["dst"]),
        Expression::Query(p(&["src"])),
        Some(Expression::Literal(Value::Boolean(true))),
    ));
    let (r, _) = run_one(statement, &mut event);
    assert_eq!(r, Ok(()));
    let expected = {
        let mut e = Record::new();
        e.insert(&p(&["dst", "child", "a"]), Value::Integer(1));
        e.insert(&p(&["dst", "child", "b"]), Value::Integer(2));
        e.insert(&p(&["src", "child", "b"]), Value::Integer(2));
        e
    };
    assert!(same_record(&event, &expected));
}

#[test]
fn decimal_rendering_is_exact() {
    assert_eq!(u64_to_string(0), "0".to_string());
    assert_eq!(u64_to_string(7), "7".to_string());
    assert_eq!(u64_to_string(10), "10".to_string());
    assert_eq!(u64_to_string(90210), "90210".to_string());
    assert_eq!(u64_to_string(u64::MAX), "18446744073709551615".to_string());
}

#[test]
fn values_compare_structurally() {
    let one = {
        let mut m = ObjectMap::new();
        m.insert("k".to_string(), b("v"));
        Value::Object(m)
    };
    let two = {
        let mut m = ObjectMap::new();
        m.insert("k".to_string(), b("v"));
        Value::Object(m)
    };
    let three = {
        let mut m = ObjectMap::new();
        m.insert("k".to_string(), b("w"));
        Value::Object(m)
    };
    assert!(value_eq(&one, &two));
    assert!(!value_eq(&one, &three));
    assert!(!value_eq(&one, &b("v")));
    assert!(value_eq(&Value::Integer(3), &Value::Integer(3)));
    assert!(!value_eq(&Value::Integer(3), &Value::Integer(4)));
    assert!(!value_eq(&Value::Boolean(true), &Value::Boolean(false)));
}
