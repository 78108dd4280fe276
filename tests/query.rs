use std::cmp::Ordering;

use ardite::compile::{condition_to_filter, find_command, query_to_projection, sort_rules_to_sort};
use ardite::query::Condition::{And, Equal, False, Not, Or, True};
use ardite::query::{compare_by_rules, Condition, Query, Range, Sort};
use ardite::value::{Object, Value};

fn s(x: &str) -> Value {
    Value::String(x.to_string())
}

fn obj(entries: Vec<(&str, Value)>) -> Value {
    let mut o = Object::new();
    for (k, v) in entries {
        o.insert(k.to_string(), v);
    }
    Value::Object(o)
}

fn key(k: &str, c: Condition) -> Condition {
    Condition::Keys(vec![(k.to_string(), c)])
}

fn p(keys: &[&str]) -> Vec<String> {
    keys.iter().map(|k| k.to_string()).collect()
}

#[test]
fn test_condition_is_true() {
    assert!(True.is_true(&Value::Array(vec![Value::I64(1), Value::I64(2), Value::I64(3)])));
    assert!(!True.is_false(&s("hello")));
    assert!(False.is_false(&Value::I64(8)));
    assert!(Not(Box::new(False)).is_true(&Value::Boolean(false)));
    assert!(And(vec![True, True, True]).is_true(&Value::I64(2)));
    assert!(And(vec![True, False, True]).is_false(&Value::I64(80)));
    assert!(Or(vec![True, False, True]).is_true(&s("world")));
    assert!(Or(vec![False, False, False]).is_false(&obj(vec![("hello", s("world"))])));
    assert!(key("key", True).is_true(&obj(vec![("key", s("value"))])));
    assert!(key("key", True).is_false(&obj(vec![("yo", s("yo"))])));
    assert!(key("key", True).is_false(&Value::I64(8)));
    assert!(And(vec![key("hello", True), key("world", True)])
        .is_true(&obj(vec![("hello", Value::I64(2)), ("world", Value::I64(30))])));
    assert!(And(vec![key("hello", True), key("world", True)]).is_false(&obj(vec![("hello", Value::I64(2))])));
    assert!(Equal(Value::I64(42)).is_true(&Value::I64(42)));
    assert!(Equal(Value::I64(42)).is_false(&Value::I64(41)));
    assert!(Equal(s("hello")).is_false(&s("world")));
    assert!(Equal(s("hello")).is_true(&s("hello")));
    assert!(Equal(obj(vec![("hello", s("world")), ("goodbye", obj(vec![("moon", Value::Boolean(true))]))]))
        .is_true(&obj(vec![("hello", s("world")), ("goodbye", obj(vec![("moon", Value::Boolean(true))]))])));
    assert!(Equal(obj(vec![("hello", s("world")), ("goodbye", obj(vec![("moon", Value::Boolean(true))]))]))
        .is_false(&obj(vec![("hello", s("world")), ("goodbye", obj(vec![("moon", Value::Boolean(false))]))])));
}

#[test]
fn keys_condition_with_siblings() {
    let c = Condition::Keys(vec![("a".to_string(), Condition::True), ("b".to_string(), Condition::Equal(Value::I64(1)))]);
    assert!(c.is_true(&obj(vec![("a", Value::Null), ("b", Value::I64(1))])));
    assert!(c.is_false(&obj(vec![("a", Value::Null), ("b", Value::I64(2))])));
    assert!(Condition::Keys(vec![]).is_true(&Value::I64(3)));
    assert!(Condition::default().is_true(&Value::Null));
}

#[test]
fn test_condition_to_filter() {
    let condition = Or(vec![
        True,
        False,
        And(vec![Not(Box::new(Equal(s("hello")))), Equal(Value::I64(42))]),
        And(vec![
            key("a", False),
            key(
                "b",
                And(vec![
                    key("c", Equal(Value::I64(4))),
                    key("d", key("e", key("f", key("g", True)))),
                ]),
            ),
        ]),
    ]);
    let filter = obj(vec![(
        "$or",
        Value::Array(vec![
            obj(vec![("$where", s("true"))]),
            obj(vec![("$where", s("false"))]),
            obj(vec![(
                "$and",
                Value::Array(vec![
                    obj(vec![("$not", obj(vec![("$eq", s("hello"))]))]),
                    obj(vec![("$eq", Value::I64(42))]),
                ]),
            )]),
            obj(vec![(
                "$and",
                Value::Array(vec![
                    obj(vec![("a", obj(vec![("$where", s("false"))]))]),
                    obj(vec![(
                        "b",
                        obj(vec![(
                            "$and",
                            Value::Array(vec![
                                obj(vec![("c", obj(vec![("$eq", Value::I64(4))]))]),
                                obj(vec![("d.e.f.g", obj(vec![("$where", s("true"))]))]),
                            ]),
                        )]),
                    )]),
                ]),
            )]),
        ]),
    )]);
    assert_eq!(condition_to_filter(condition), filter);
}

#[test]
fn keys_condition_compiles_flat() {
    let c = key("a", Condition::Equal(Value::I64(5)));
    assert_eq!(condition_to_filter(c), obj(vec![("a", obj(vec![("$eq", Value::I64(5))]))]));
    let nested = Condition::Keys(vec![(
        "a".to_string(),
        Condition::Keys(vec![
            ("b".to_string(), Condition::Equal(Value::I64(4))),
            ("c".to_string(), Condition::False),
        ]),
    )]);
    let filter = condition_to_filter(nested);
    assert_eq!(
        filter,
        obj(vec![("a.b", obj(vec![("$eq", Value::I64(4))])), ("a.c", obj(vec![("$where", s("false"))]))])
    );
    match filter {
        Value::Object(o) => assert_eq!(o.entries()[0].0, "a.b"),
        _ => panic!("not a document"),
    }
}

#[test]
fn test_sort_rules_to_sort() {
    let sort = vec![
        Sort::new(vec!["hello".to_owned(), "world".to_owned()], true),
        Sort::new(vec!["a".to_owned()], false),
    ];
    let sort_doc = obj(vec![("hello.world", Value::I64(1)), ("a", Value::I64(-1))]);
    assert_eq!(sort_rules_to_sort(sort), sort_doc);
}

#[test]
fn projection_of_selection() {
    assert_eq!(query_to_projection(&Query::All), obj(vec![("_id", Value::I64(0))]));
    let q = Query::Keys(vec![
        ("a".to_string(), Query::Keys(vec![("b".to_string(), Query::All)])),
        ("c".to_string(), Query::All),
        ("d".to_string(), Query::Keys(vec![])),
    ]);
    assert_eq!(
        query_to_projection(&q),
        obj(vec![("_id", Value::I64(0)), ("a.b", Value::I64(1)), ("c", Value::I64(1))])
    );
}

#[test]
fn query_from_pointer() {
    assert!(matches!(Query::from_pointer(&p(&[])), Query::All));
    match Query::from_pointer(&p(&["a", "b"])) {
        Query::Keys(outer) => {
            assert_eq!(outer.len(), 1);
            assert_eq!(outer[0].0, "a");
            match &outer[0].1 {
                Query::Keys(inner) => {
                    assert_eq!(inner.len(), 1);
                    assert_eq!(inner[0].0, "b");
                    assert!(matches!(inner[0].1, Query::All));
                }
                Query::All => panic!("expected keys"),
            }
        }
        Query::All => panic!("expected keys"),
    }
}

#[test]
fn sort_rule_accessors() {
    let rule = Sort::new(p(&["a", "b"]), false);
    assert_eq!(rule.path(), vec!["a", "b"]);
    assert!(rule.is_descending());
    assert!(!rule.is_ascending());
    let x = obj(vec![("a", obj(vec![("b", Value::I64(1))]))]);
    let y = obj(vec![("a", obj(vec![("b", Value::I64(2))]))]);
    assert_eq!(rule.partial_cmp(&x, &y), Some(Ordering::Greater));
    assert_eq!(rule.partial_cmp(&x, &obj(vec![])), Some(Ordering::Less));
}

#[test]
fn rules_break_ties_in_order() {
    let rules = vec![Sort::new(p(&["a"]), true), Sort::new(p(&["b"]), false)];
    let x = obj(vec![("a", Value::I64(1)), ("b", Value::I64(1))]);
    let y = obj(vec![("a", Value::I64(1)), ("b", Value::I64(2))]);
    let z = obj(vec![("a", s("1")), ("b", Value::I64(2))]);
    assert_eq!(compare_by_rules(&rules, &x, &y), Ordering::Greater);
    assert_eq!(compare_by_rules(&rules, &y, &x), Ordering::Less);
    assert_eq!(compare_by_rules(&rules, &z, &y), Ordering::Equal);
    assert_eq!(compare_by_rules(&vec![], &x, &y), Ordering::Equal);
}

#[test]
fn range_window() {
    let r = Range::new(Some(2), Some(3));
    assert_eq!(r.offset(), Some(2));
    assert_eq!(r.limit(), Some(3));
    assert_eq!(r.bounds(10), (2, 5));
    assert_eq!(r.bounds(4), (2, 4));
    assert_eq!(r.bounds(1), (1, 1));
    assert_eq!(r.slice(vec![0, 1, 2, 3, 4, 5, 6]), vec![2, 3, 4]);
    assert_eq!(Range::default().slice(vec![1, 2]), vec![1, 2]);
    assert_eq!(Range::new(None, Some(0)).slice(vec![1, 2]), Vec::<i32>::new());
    assert_eq!(Range::new(Some(usize::MAX), Some(usize::MAX)).bounds(3), (3, 3));
    assert_eq!(Range::new(Some(1), None).slice(vec![1, 2, 3]), vec![2, 3]);
}

#[test]
fn find_command_document() {

    let command = find_command(
        "people",
        key("a", Equal(Value::I64(5))),
        vec![Sort::new(p(&["a"]), false)],
        &Range::new(Some(10), Some(5)),
        &Query::All,
    );
    let expected = obj(vec![
        ("find", s("people")),
        ("filter", obj(vec![("a", obj(vec![("$eq", Value::I64(5))]))])),
        ("sort", obj(vec![("a", Value::I64(-1))])),
        ("projection", obj(vec![("_id", Value::I64(0))])),
        ("limit", Value::I64(5)),
        ("skip", Value::I64(10)),
    ]);
    assert_eq!(command, expected);
    let plain = find_command("x", True, vec![], &Range::default(), &Query::All);
    match plain {
        Value::Object(o) => assert_eq!(o.len(), 4),
        _ => panic!("not a document"),
    }
}

fn at_path<'a>(doc: &'a Value, path: &str) -> Option<&'a Value> {
    let keys: Vec<String> = path.split('.').map(|k| k.to_string()).collect();
    doc.get_path(&keys)
}

fn run_filter(filter: &Value, doc: &Value) -> bool {
    let o = match filter {
        Value::Object(o) => o,
        _ => return false,
    };
    let entries = o.entries();
    if entries.len() == 1 && entries[0].0.starts_with('$') {
        let g = &entries[0].1;
        return match entries[0].0.as_str() {
            "$where" => *g == s("true"),
            "$not" => !run_filter(g, doc),
            "$and" => matches!(g, Value::Array(gs) if gs.iter().all(|x| run_filter(x, doc))),
            "$or" => matches!(g, Value::Array(gs) if gs.iter().any(|x| run_filter(x, doc))),
            "$eq" => doc == g,
            _ => false,
        };
    }
    entries.iter().all(|(path, g)| match at_path(doc, path) {
        Some(w) => run_filter(g, w),
        None => false,
    })
}

#[test]
fn compiled_filters_decide_as_conditions() {
    let docs = vec![
        obj(vec![("a", obj(vec![("b", Value::I64(4)), ("c", Value::Boolean(true))])), ("d", s("x"))]),
        obj(vec![("a", obj(vec![("b", Value::I64(5))])), ("d", s("y"))]),
        obj(vec![("d", s("x"))]),
        Value::Array(vec![obj(vec![("b", Value::I64(4))])]),
        Value::I64(4),
    ];
    let make = || {
        vec![
            key("a", key("b", Equal(Value::I64(4)))),
            Condition::Keys(vec![
                ("a".to_string(), Condition::Keys(vec![("b".to_string(), Equal(Value::I64(4))), ("c".to_string(), True)])),
                ("d".to_string(), Equal(s("x"))),
            ]),
            Or(vec![key("d", Equal(s("y"))), Not(Box::new(key("a", True)))]),
            And(vec![key("0", key("b", Equal(Value::I64(4)))), True]),
            Equal(Value::I64(4)),
            Condition::Keys(vec![]),
            False,
        ]
    };
    for (condition, compiled) in make().into_iter().zip(make().into_iter()) {
        let filter = condition_to_filter(compiled);
        for doc in &docs {
            assert_eq!(run_filter(&filter, doc), condition.is_true(doc));
        }
    }
}

#[test]
fn empty_keys_keep_their_dot() {
    let c = key("", key("b", True));
    assert_eq!(condition_to_filter(c), obj(vec![(".b", obj(vec![("$where", s("true"))]))]));
    let q = Query::Keys(vec![("".to_string(), Query::Keys(vec![("b".to_string(), Query::All)]))]);
    assert_eq!(query_to_projection(&q), obj(vec![("_id", Value::I64(0)), (".b", Value::I64(1))]));
    assert_eq!(condition_to_filter(key("", True)), obj(vec![("", obj(vec![("$where", s("true"))]))]));
}
