use ardite::error::{Error, ErrorCode};
use ardite::query::Query;
use ardite::schema::Schema;
use ardite::value::Value;
use regex::Regex;

fn p(keys: &[&str]) -> Vec<String> {
    keys.iter().map(|k| k.to_string()).collect()
}

fn keys(entries: Vec<(&str, Query)>) -> Query {
    Query::Keys(entries.into_iter().map(|(k, q)| (k.to_string(), q)).collect())
}

fn props(entries: Vec<(&str, Schema)>) -> Vec<(String, Schema)> {
    entries.into_iter().map(|(k, s)| (k.to_string(), s)).collect()
}

fn assert_message(error: &Error, pattern: &str) {
    let message = error.message();
    if !Regex::new(pattern).unwrap().is_match(&message) {
        panic!("Error message \"{}\" does not match regex /{}/", message, pattern);
    }
}

fn number() -> Schema {
    Schema::Number {
        multiple_of: None,
        minimum: None,
        exclusive_minimum: false,
        maximum: None,
        exclusive_maximum: false,
    }
}

fn string() -> Schema {
    Schema::String { min_length: None, max_length: None, pattern: None }
}

fn nested_object() -> Schema {
    Schema::Object {
        required: vec![],
        additional_properties: false,
        properties: props(vec![
            ("hello", Schema::Boolean),
            ("world", Schema::Boolean),
            ("5", Schema::Boolean),
            (
                "goodbye",
                Schema::Object {
                    required: vec![],
                    additional_properties: false,
                    properties: props(vec![("hello", Schema::Boolean), ("world", Schema::Boolean)]),
                },
            ),
        ]),
    }
}

#[test]
fn schema_test_get_primitive() {
    assert!(matches!(Schema::Any.get(&p(&[])), Some(Schema::Any)));
    assert!(Schema::Any.get(&p(&["hello"])).is_none());
    assert!(matches!(Schema::Boolean.get(&p(&[])), Some(Schema::Boolean)));
    assert!(Schema::Boolean.get(&p(&["hello"])).is_none());
    assert!(number().get(&p(&["hello"])).is_none());
    assert!(string().get(&p(&["hello"])).is_none());
}

#[test]
fn schema_test_get_array() {
    let array_none = Schema::Array { items: Box::new(Schema::Any) };
    let array_bool = Schema::Array { items: Box::new(Schema::Boolean) };
    assert!(matches!(array_none.get(&p(&["1"])), Some(Schema::Any)));
    assert!(array_none.get(&p(&["asd"])).is_none());
    assert!(matches!(array_bool.get(&p(&["1"])), Some(Schema::Boolean)));
    assert!(matches!(array_bool.get(&p(&["9999999"])), Some(Schema::Boolean)));
    assert!(array_bool.get(&p(&["asd"])).is_none());
}

#[test]
fn schema_test_get_object() {
    let object = nested_object();
    assert!(object.get(&p(&["yo"])).is_none());
    assert!(matches!(object.get(&p(&["hello"])), Some(Schema::Boolean)));
    assert!(matches!(object.get(&p(&["goodbye", "world"])), Some(Schema::Boolean)));
    assert!(object.get(&p(&["goodbye", "yo"])).is_none());
}

#[test]
fn schema_test_query_none() {
    assert_eq!(Schema::Any.validate_query(&Query::All).is_ok(), true);
    assert_eq!(
        Schema::Any
            .validate_query(&keys(vec![
                ("s@#f&/Ij)82h(;pa0]", Query::All),
                ("123", Query::All),
                ("hello", Query::All),
                ("nested", keys(vec![("yo", Query::All)])),
            ]))
            .is_ok(),
        true
    );
}

#[test]
fn schema_test_query_primitive() {
    assert!(Schema::Null.validate_query(&Query::All).is_ok());
    let obj_query = keys(vec![]);
    assert_message(&Schema::Null.validate_query(&obj_query).unwrap_err(), r"deeply query");
    assert_message(&Schema::Boolean.validate_query(&obj_query).unwrap_err(), r"deeply query");
    assert_message(&number().validate_query(&obj_query).unwrap_err(), r"deeply query");
    assert_message(&string().validate_query(&obj_query).unwrap_err(), r"deeply query");
    assert_message(
        &Schema::Enum(vec![Value::Boolean(true), Value::Boolean(false)])
            .validate_query(&obj_query)
            .unwrap_err(),
        r"deeply query",
    );
}

#[test]
fn schema_test_query_array() {
    let array_none = Schema::Array { items: Box::new(Schema::Any) };
    let array_bool = Schema::Array { items: Box::new(Schema::Boolean) };
    assert!(array_none.validate_query(&Query::All).is_ok());
    assert!(array_none.validate_query(&keys(vec![("1", Query::All)])).is_ok());
    assert!(array_none.validate_query(&keys(vec![("1", keys(vec![]))])).is_ok());
    assert!(array_bool
        .validate_query(&keys(vec![
            ("1", Query::All),
            ("2", Query::All),
            ("3", Query::All),
            ("50", Query::All),
            ("999999999999999", Query::All),
        ]))
        .is_ok());
    assert_message(
        &array_none.validate_query(&keys(vec![("hello", Query::All)])).unwrap_err(),
        "non-integer \"hello\"",
    );
    assert_message(
        &array_bool.validate_query(&keys(vec![("1", keys(vec![]))])).unwrap_err(),
        r"Cannot deeply query a boolean\.",
    );
}

#[test]
fn schema_test_query_object() {
    let object = nested_object();
    let object_additional = Schema::Object {
        required: vec![],
        additional_properties: true,
        properties: props(vec![("hello", Schema::Boolean), ("world", Schema::Boolean)]),
    };
    assert!(object
        .validate_query(&keys(vec![("world", Query::All), ("5", Query::All), ("goodbye", Query::All)]))
        .is_ok());
    assert_message(
        &object.validate_query(&keys(vec![("hello", Query::All), ("moon", Query::All)])).unwrap_err(),
        "Cannot query object property \"moon\".",
    );
    assert_message(
        &object.validate_query(&keys(vec![("hello", keys(vec![]))])).unwrap_err(),
        r"Cannot deeply query a boolean\.",
    );
    assert!(object.validate_query(&keys(vec![("goodbye", keys(vec![("hello", Query::All)]))])).is_ok());
    assert_message(
        &object
            .validate_query(&keys(vec![("goodbye", keys(vec![("hello", keys(vec![]))]))]))
            .unwrap_err(),
        r"Cannot deeply query a boolean\.",
    );
    assert!(object_additional
        .validate_query(&keys(vec![
            ("world", Query::All),
            ("5", Query::All),
            ("goodvye", Query::All),
            ("moon", Query::All),
        ]))
        .is_ok());
}

#[test]
fn email_schema_refuses_phone() {
    let schema = Schema::Object {
        properties: props(vec![(
            "email",
            Schema::String { min_length: Some(4), max_length: Some(256), pattern: None },
        )]),
        required: vec!["email".to_string()],
        additional_properties: false,
    };
    let error = schema
        .validate_query(&keys(vec![("email", Query::All), ("phone", Query::All)]))
        .unwrap_err();
    assert!(error.message().contains("Cannot query object property \"phone\""));
    assert_eq!(error.code(), ErrorCode::BadRequest);
    assert_eq!(error.hint(), Some("Query an object property that is defined in the schema.".to_string()));
}

#[test]
fn select_all_is_valid_everywhere() {
    for schema in vec![Schema::Any, Schema::Null, Schema::Boolean, number(), string(), nested_object(), Schema::Enum(vec![])] {
        assert!(schema.validate_query(&Query::All).is_ok());
    }
}

#[test]
fn object_single_key_law() {
    let object = nested_object();
    assert!(object.validate_query(&keys(vec![("world", Query::All)])).is_ok());
    let error = object.validate_query(&keys(vec![("mars", Query::All)])).unwrap_err();
    assert!(error.message().contains("mars"));
}

#[test]
fn array_single_key_law() {
    let array = Schema::Array { items: Box::new(nested_object()) };
    assert!(array.validate_query(&keys(vec![("0", keys(vec![("hello", Query::All)]))])).is_ok());
    assert!(array.validate_query(&keys(vec![("0", keys(vec![("nope", Query::All)]))])).is_err());
    assert!(array.validate_query(&keys(vec![("x1", Query::All)])).is_err());
    assert!(array.validate_query(&keys(vec![("", Query::All)])).is_err());
}

#[test]
fn first_failing_key_reports() {
    let object = nested_object();
    let error = object
        .validate_query(&keys(vec![("a", Query::All), ("b", Query::All)]))
        .unwrap_err();
    assert_eq!(error.message(), "Cannot query object property \"a\".");
}
