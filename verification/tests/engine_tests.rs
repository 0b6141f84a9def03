use mapping::value::{Value, ObjectMap};
use mapping::path::Path;
use mapping::record::Record;
use mapping::query::{Expression, value_eq};
use mapping::statement::{
    Statement, Assignment, Deletion, OnlyFields, IfStatement, MergeFn, LogLine,
};
use mapping::mapping::Mapping;

fn s(x: &str) -> String {
    x.to_string()
}

fn path(segs: &[&str]) -> Path {
    Path::new(segs.iter().map(|x| x.to_string()).collect())
}

fn bytes(x: &str) -> Value {
    Value::Bytes(x.as_bytes().to_vec())
}

fn lit(x: &str) -> Expression {
    Expression::Literal(bytes(x))
}

fn query(segs: &[&str]) -> Expression {
    Expression::Query(path(segs))
}

fn record_eq(a: &Record, b: &Record) -> bool {
    value_eq(
        &Value::Object(a.fields.duplicate()),
        &Value::Object(b.fields.duplicate()),
    )
}

fn map_of(pairs: Vec<(&str, Value)>) -> Value {
    let mut m = ObjectMap::new();
    for (k, v) in pairs {
        m.insert(s(k), v);
    }
    Value::Object(m)
}

#[test]
fn check_mapping() {
    let cases: Vec<(Record, Record, Mapping, Result<(), String>)> = vec![
        (
            {
                let mut event = Record::new();
                event.insert(&path(&["message"]), bytes("foo body"));
                event
            },
            {
                let mut event = Record::new();
                event.insert(&path(&["message"]), bytes("foo body"));
                event.insert(&path(&["foo"]), bytes("bar"));
                event
            },
            Mapping::new(vec![Statement::Assign(Assignment::new(
                path(&["foo"]),
                lit("bar"),
            ))]),
            Ok(()),
        ),
        (
            {
                let mut event = Record::new();
                event.insert(&path(&["message"]), bytes("foo body"));
                event
            },
            {
                let mut event = Record::new();
                event.insert(&path(&["message"]), bytes("foo body"));
                event.insert(&path(&["foo bar.baz", "buz"]), bytes("quack"));
                event
            },
            Mapping::new(vec![Statement::Assign(Assignment::new(
                path(&["foo bar.baz", "buz"]),
                lit("quack"),
            ))]),
            Ok(()),
        ),
        (
            {
                let mut event = Record::new();
                event.insert(&path(&["message"]), bytes("foo body"));
                event.insert(&path(&["foo"]), bytes("bar"));
                event
            },
            {
                let mut event = Record::new();
                event.insert(&path(&["message"]), bytes("foo body"));
                event
            },
            Mapping::new(vec![Statement::Delete(Deletion::new(vec![path(&["foo"])]))]),
            Ok(()),
        ),
        (
            {
                let mut event = Record::new();
                event.insert(&path(&["message"]), bytes("foo body"));
                event.insert(&path(&["bar"]), bytes("baz"));
                event
            },
            {
                let mut event = Record::new();
                event.insert(&path(&["message"]), bytes("foo body"));
                event.insert(&path(&["foo"]), bytes("bar"));
                event
            },
            Mapping::new(vec![
                Statement::Assign(Assignment::new(path(&["foo"]), lit("bar"))),
                Statement::Delete(Deletion::new(vec![path(&["bar"])])),
            ]),
            Ok(()),
        ),
        (
            {
                let mut event = Record::new();
                event.insert(&path(&["message"]), bytes("foo body"));
                event.insert(&path(&["bar"]), bytes("baz"));
                event
            },
            {
                let mut event = Record::new();
                event.insert(&path(&["message"]), bytes("foo body"));
                event.insert(&path(&["bar"]), bytes("baz"));
                event.insert(&path(&["foo"]), bytes("bar is baz"));
                event
            },
            Mapping::new(vec![Statement::If(IfStatement::new(
                Expression::Equals(Box::new(query(&["bar"])), Box::new(lit("baz"))),
                Box::new(Statement::Assign(Assignment::new(
                    path(&["foo"]),
                    lit("bar is baz"),
                ))),
                Box::new(Statement::Delete(Deletion::new(vec![path(&["bar"])]))),
            ))]),
            Ok(()),
        ),
        (
            {
                let mut event = Record::new();
                event.insert(&path(&["message"]), bytes("foo body"));
                event.insert(&path(&["bar"]), bytes("buz"));
                event
            },
            {
                let mut event = Record::new();
                event.insert(&path(&["message"]), bytes("foo body"));
                event
            },
            Mapping::new(vec![Statement::If(IfStatement::new(
                Expression::Equals(Box::new(query(&["bar"])), Box::new(lit("baz"))),
                Box::new(Statement::Assign(Assignment::new(
                    path(&["foo"]),
                    lit("bar is baz"),
                ))),
                Box::new(Statement::Delete(Deletion::new(vec![path(&["bar"])]))),
            ))]),
            Ok(()),
        ),
        (
            {
                let mut event = Record::new();
                event.insert(&path(&["message"]), bytes("foo body"));
                event.insert(&path(&["bar"]), bytes("buz"));
                event
            },
            {
                let mut event = Record::new();
                event.insert(&path(&["message"]), bytes("foo body"));
                event.insert(&path(&["bar"]), bytes("buz"));
                event
            },
            Mapping::new(vec![Statement::If(IfStatement::new(
                query(&["bar"]),
                Box::new(Statement::Assign(Assignment::new(
                    path(&["foo"]),
                    lit("bar is baz"),
                ))),
                Box::new(Statement::Delete(Deletion::new(vec![path(&["bar"])]))),
            ))]),
            Err("failed to apply mapping 0: query returned non-boolean value".to_string()),
        ),
        (
            {
                let mut event = Record::new();
                event.insert(&path(&["message"]), bytes("foo body"));
                event.insert(&path(&["bar", "baz", "buz"]), bytes("first"));
                event.insert(&path(&["bar", "baz", "remove_this"]), bytes("second"));
                event.insert(&path(&["bev"]), bytes("third"));
                event.insert(&path(&["and", "remove_this"]), bytes("fourth"));
                event.insert(&path(&["nested", "stuff", "here"]), bytes("fifth"));
                event.insert(&path(&["nested", "and_here"]), bytes("sixth"));
                event
            },
            {
                let mut event = Record::new();
                event.insert(&path(&["bar", "baz", "buz"]), bytes("first"));
                event.insert(&path(&["bev"]), bytes("third"));
                event.insert(&path(&["nested", "stuff", "here"]), bytes("fifth"));
                event.insert(&path(&["nested", "and_here"]), bytes("sixth"));
                event
            },
            Mapping::new(vec![Statement::Only(OnlyFields::new(vec![
                path(&["bar", "baz", "buz"]),
                path(&["bev"]),
                path(&["doesnt_exist", "anyway"]),
                path(&["nested"]),
            ]))]),
            Ok(()),
        ),
    ];

    for (mut input_event, exp_event, program, exp_result) in cases {
        let mut sink: Vec<LogLine> = Vec::new();
        assert_eq!(program.execute(&mut input_event, &mut sink), exp_result);
        assert!(record_eq(&input_event, &exp_event));
    }
}

#[test]
fn check_merge() {
    let cases: Vec<(Record, Record, Mapping, Result<(), String>)> = vec![
        (
            {
                let mut event = Record::new();
                event.insert(&path(&["message"]), bytes(""));
                event.insert(&path(&["foo"]), Value::Boolean(true));
                event.insert(&path(&["bar"]), map_of(vec![("key2", bytes("val2"))]));
                event
            },
            {
                let mut event = Record::new();
                event.insert(&path(&["message"]), bytes(""));
                event.insert(&path(&["foo"]), Value::Boolean(true));
                event.insert(&path(&["bar"]), map_of(vec![("key2", bytes("val2"))]));
                event
            },
            Mapping::new(vec![Statement::Merge(MergeFn::new(
                path(&["foo"]),
                query(&["bar"]),
                None,
            ))]),
            Err("failed to apply mapping 0: parameters passed to merge are non-map values"
                .to_string()),
        ),
        (
            {
                let mut event = Record::new();
                event.insert(&path(&["foo"]), map_of(vec![("key1", bytes("val1"))]));
                event.insert(&path(&["bar"]), map_of(vec![("key2", bytes("val2"))]));
                event
            },
            {
                let mut event = Record::new();
                event.insert(
                    &path(&["foo"]),
                    map_of(vec![("key1", bytes("val1")), ("key2", bytes("val2"))]),
                );
                event.insert(&path(&["bar"]), map_of(vec![("key2", bytes("val2"))]));
                event
            },
            Mapping::new(vec![Statement::Merge(MergeFn::new(
                path(&["foo"]),
                query(&["bar"]),
                None,
            ))]),
            Ok(()),
        ),
        (
            {
                let mut event = Record::new();
                event.insert(
                    &path(&["parent1"]),
                    map_of(vec![
                        ("key1", bytes("val1")),
                        ("child", map_of(vec![("grandchild1", bytes("val1"))])),
                    ]),
                );
                event.insert(
                    &path(&["parent2"]),
                    map_of(vec![
                        ("key2", bytes("val2")),
                        ("child", map_of(vec![("grandchild2", bytes("val2"))])),
                    ]),
                );
                event
            },
            {
                let mut event = Record::new();
                event.insert(
                    &path(&["parent1"]),
                    map_of(vec![
                        ("key1", bytes("val1")),
                        ("child", map_of(vec![("grandchild2", bytes("val2"))])),
                        ("key2", bytes("val2")),
                    ]),
                );
                event.insert(
                    &path(&["parent2"]),
                    map_of(vec![
                        ("key2", bytes("val2")),
                        ("child", map_of(vec![("grandchild2", bytes("val2"))])),
                    ]),
                );
                event
            },
            Mapping::new(vec![Statement::Merge(MergeFn::new(
                path(&["parent1"]),
                query(&["parent2"]),
                None,
            ))]),
            Ok(()),
        ),
        (
            {
                let mut event = Record::new();
                event.insert(
                    &path(&["parent1"]),
                    map_of(vec![
                        ("key1", bytes("val1")),
                        ("child", map_of(vec![("grandchild1", bytes("val1"))])),
                    ]),
                );
                event.insert(
                    &path(&["parent2"]),
                    map_of(vec![
                        ("key2", bytes("val2")),
                        ("child", map_of(vec![("grandchild2", bytes("val2"))])),
                    ]),
                );
                event
            },
            {
                let mut event = Record::new();
                event.insert(
                    &path(&["parent1"]),
                    map_of(vec![
                        ("key1", bytes("val1")),
                        (
                            "child",
                            map_of(vec![
                                ("grandchild1", bytes("val1")),
                                ("grandchild2", bytes("val2")),
                            ]),
                        ),
                        ("key2", bytes("val2")),
                    ]),
                );
                event.insert(
                    &path(&["parent2"]),
                    map_of(vec![
                        ("key2", bytes("val2")),
                        ("child", map_of(vec![("grandchild2", bytes("val2"))])),
                    ]),
                );
                event
            },
            Mapping::new(vec![Statement::Merge(MergeFn::new(
                path(&["parent1"]),
                query(&["parent2"]),
                Some(Expression::Literal(Value::Boolean(true))),
            ))]),
            Ok(()),
        ),
    ];

    for (mut input_event, exp_event, program, exp_result) in cases {
        let mut sink: Vec<LogLine> = Vec::new();
        assert_eq!(program.execute(&mut input_event, &mut sink), exp_result);
        assert!(record_eq(&input_event, &exp_event));
    }
}
