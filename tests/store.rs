use ardite::case::Case;
use ardite::definition::{Definition, SchemaDocument};
use ardite::error::{Error, ErrorCode};
use ardite::memory::{single_record, Memory};
use ardite::query::{Condition, Query, Range, Sort};
use ardite::schema::Schema;
use ardite::value::{Object, Value};

fn obj(entries: Vec<(&str, Value)>) -> Value {
    let mut o = Object::new();
    for (k, v) in entries {
        o.insert(k.to_string(), v);
    }
    Value::Object(o)
}

fn doc(kind: Option<&str>) -> SchemaDocument {
    SchemaDocument {
        kind: kind.map(|k| k.to_string()),
        multiple_of: None,
        minimum: None,
        exclusive_minimum: None,
        maximum: None,
        exclusive_maximum: None,
        min_length: None,
        max_length: None,
        pattern: None,
        items: None,
        properties: None,
        required: None,
        additional_properties: None,
        enum_values: None,
    }
}

#[test]
fn definition_insert_type_will_snake_case() {
    let mut definition = Definition::new();
    definition.add_type("helloWorld", Schema::Any);
    definition.add_type("yo yo", Schema::Any);
    definition.add_type("COOL_COOL", Schema::Any);
    assert!(definition.get_type("helloWorld").is_none());
    assert!(definition.get_type("yo yo").is_none());
    assert!(definition.get_type("COOL_COOL").is_none());
    assert!(definition.get_type("hello_world").is_some());
    assert!(definition.get_type("yo_yo").is_some());
    assert!(definition.get_type("cool_cool").is_some());
}

#[test]
fn schema_insert_type_will_snake_case() {
    let mut definition = Definition::new();
    definition.add_type("helloWorld", Schema::Boolean);
    definition.add_type("hello_world", Schema::Null);
    assert_eq!(definition.types().len(), 1);
    assert!(matches!(definition.get_type("hello_world"), Some(Schema::Null)));
}

#[test]
fn documents_convert_to_schemas() {
    let mut email = doc(Some("string"));
    email.min_length = Some(4);
    email.max_length = Some(256);
    email.pattern = Some(r".+@.+\..+".to_string());
    let mut person = doc(Some("object"));
    person.properties = Some(vec![("email".to_string(), email), ("age".to_string(), doc(Some("integer")))]);
    person.required = Some(vec!["email".to_string()]);
    let mut people = doc(Some("array"));
    people.items = Some(Box::new(person));
    match people.to_schema().unwrap() {
        Schema::Array { items } => match *items {
            Schema::Object { properties, required, additional_properties } => {
                assert_eq!(properties.len(), 2);
                assert_eq!(properties[0].0, "email");
                assert!(matches!(
                    &properties[0].1,
                    Schema::String { min_length: Some(4), max_length: Some(256), pattern: Some(p) } if p == r".+@.+\..+"
                ));
                assert!(matches!(properties[1].1, Schema::Number { multiple_of: None, exclusive_minimum: false, .. }));
                assert_eq!(required, vec!["email".to_string()]);
                assert!(!additional_properties);
            }
            _ => panic!("expected an object schema"),
        },
        _ => panic!("expected an array schema"),
    }
    let mut topic = doc(None);
    topic.enum_values = Some(vec!["showcase".to_string(), "help".to_string()]);
    match topic.to_schema().unwrap() {
        Schema::Enum(values) => assert_eq!(values, vec![Value::String("showcase".to_string()), Value::String("help".to_string())]),
        _ => panic!("expected an enum schema"),
    }
    assert!(matches!(doc(Some("null")).to_schema(), Ok(Schema::Null)));
    assert!(matches!(doc(Some("boolean")).to_schema(), Ok(Schema::Boolean)));
}

#[test]
fn document_errors() {
    let e = doc(Some("array")).to_schema().unwrap_err();
    assert_eq!(e.code(), ErrorCode::BadRequest);
    assert_eq!(e.message(), "Missing `items` property for type 'array'.");
    assert_eq!(e.hint(), Some("Add a schema at `items`.".to_string()));
    let e = doc(Some("date")).to_schema().unwrap_err();
    assert_eq!(e.message(), "Invalid type 'date'.");
    assert_eq!(e.hint(), Some("Use a permitted type like 'string' and not 'date'.".to_string()));
    let e = doc(None).to_schema().unwrap_err();
    assert_eq!(e.message(), "No schema type specified.");
    let mut outer = doc(Some("object"));
    outer.properties = Some(vec![("ok".to_string(), doc(Some("null"))), ("bad".to_string(), doc(Some("tuple")))]);
    assert_eq!(outer.to_schema().unwrap_err().message(), "Invalid type 'tuple'.");
    let docs = vec![("personRecord".to_string(), doc(Some("object"))), ("broken".to_string(), doc(None))];
    assert_eq!(Definition::from_documents(&docs).unwrap_err().message(), "No schema type specified.");
    let docs = vec![("personRecord".to_string(), doc(Some("object")))];
    let definition = Definition::from_documents(&docs).unwrap();
    assert!(definition.get_type("person_record").is_some());
}

#[test]
fn memory_reads_filter_sort_and_window() {
    let mut memory = Memory::new();
    let mut records = vec![
        obj(vec![("n", Value::I64(3)), ("keep", Value::Boolean(true))]),
        obj(vec![("n", Value::I64(1)), ("keep", Value::Boolean(true))]),
        obj(vec![("n", Value::I64(2)), ("keep", Value::Boolean(false))]),
        obj(vec![("n", Value::I64(0)), ("keep", Value::Boolean(true))]),
    ];
    memory.append_to_collection("things", &mut records);
    assert!(records.is_empty());
    let keep = Condition::Keys(vec![("keep".to_string(), Condition::Equal(Value::Boolean(true)))]);
    let rules = vec![Sort::new(vec!["n".to_string()], true)];
    let all = memory.read("things", &keep, &rules, &Range::default());
    let ns: Vec<Value> = all.iter().map(|v| v.get("n").unwrap().duplicate()).collect();
    assert_eq!(ns, vec![Value::I64(0), Value::I64(1), Value::I64(3)]);
    let window = memory.read("things", &keep, &rules, &Range::new(Some(1), Some(1)));
    assert_eq!(window.len(), 1);
    assert_eq!(window[0].get("n"), Some(&Value::I64(1)));
    let descending = vec![Sort::new(vec!["n".to_string()], false)];
    let top = memory.read("things", &Condition::True, &descending, &Range::new(None, Some(2)));
    assert_eq!(top[0].get("n"), Some(&Value::I64(3)));
    assert_eq!(top[1].get("n"), Some(&Value::I64(2)));
    assert!(memory.read("missing", &Condition::True, &vec![], &Range::default()).is_empty());
    let mut more = vec![obj(vec![("n", Value::I64(9)), ("keep", Value::Boolean(true))])];
    memory.append_to_collection("things", &mut more);
    assert_eq!(memory.read("things", &keep, &rules, &Range::default()).len(), 4);
}

#[test]
fn single_record_decision() {
    let e = single_record(vec![]).unwrap_err();
    assert_eq!(e.code(), ErrorCode::NotFound);
    assert_eq!(single_record(vec![Value::I64(1)]).unwrap(), Value::I64(1));
    let e = single_record(vec![Value::I64(1), Value::I64(2)]).unwrap_err();
    assert_eq!(e.code(), ErrorCode::Internal);
    assert_eq!(e.hint(), None);
}

#[test]
fn error_constructors() {
    let error = Error::validation("Failed validation.".to_string(), "Try fixing your syntax!".to_string());
    assert_eq!(
        error,
        Error::new(ErrorCode::BadRequest, "Failed validation.".to_string(), Some("Try fixing your syntax!".to_string()))
    );
    assert_eq!(Error::internal("Something blew up.".to_string()), Error::new(ErrorCode::Internal, "Something blew up.".to_string(), None));
    assert_eq!(
        Error::unimplemented("Cache invalidation is hard.".to_string()),
        Error::new(ErrorCode::NotImplemented, "Cache invalidation is hard.".to_string(), None)
    );
    assert_eq!(Error::not_found("x".to_string()).code().status(), 404);
    assert_eq!(ErrorCode::BadRange.status(), 416);
    assert_eq!(ErrorCode::NotAcceptable.status(), 406);
}

#[test]
fn case_names() {
    assert_eq!(Case::from_name("same").unwrap(), Case::Same);
    assert_eq!(Case::from_name("camel").unwrap(), Case::Camel);
    assert_eq!(Case::from_name("kebab").unwrap(), Case::Kebab);
    assert_eq!(Case::from_name("snake").unwrap(), Case::Snake);
    assert_eq!(Case::from_name("class").unwrap(), Case::Class);
    assert_eq!(Case::from_name("screaming").unwrap(), Case::Screaming);
    assert_eq!(Case::from_name("sentence").unwrap(), Case::Sentence);
    assert_eq!(Case::from_name("title").unwrap(), Case::Title);
    assert_eq!(Case::from_name("upper").unwrap(), Case::Upper);
    assert_eq!(Case::from_name("lower").unwrap(), Case::Lower);
    assert_eq!(Case::from_name("Lower"), None);
}

#[test]
fn reads_are_checked_against_the_definition() {

    let mut definition = Definition::new();
    definition.add_type(
        "person",
        Schema::Object { properties: vec![("email".to_string(), Schema::Any)], required: vec![], additional_properties: false },
    );
    let e = definition.validate_read("post", &Query::All).unwrap_err();
    assert_eq!(e.code(), ErrorCode::NotFound);
    assert_eq!(e.message(), "Cannot use type 'post' because it does not exist in the schema.");
    assert!(definition.validate_read("person", &Query::All).is_ok());
    let q = Query::Keys(vec![("phone".to_string(), Query::All)]);
    assert_eq!(definition.validate_read("person", &q).unwrap_err().code(), ErrorCode::BadRequest);
}

#[test]
fn case_conversions() {
    assert_eq!(Case::Same.to_case("Hello world".to_owned()), "Hello world".to_owned());
    assert_eq!(Case::Camel.to_case("Hello world".to_owned()), "helloWorld".to_owned());
    assert_eq!(Case::Kebab.to_case("Hello world".to_owned()), "hello-world".to_owned());
    assert_eq!(Case::Snake.to_case("Hello world".to_owned()), "hello_world".to_owned());
    assert_eq!(Case::Class.to_case("Hello world".to_owned()), "HelloWorld".to_owned());
    assert_eq!(Case::Screaming.to_case("Hello world".to_owned()), "HELLO_WORLD".to_owned());
    assert_eq!(Case::Sentence.to_case("hello_world".to_owned()), "Hello world".to_owned());
    assert_eq!(Case::Title.to_case("hello_world".to_owned()), "Hello World".to_owned());
    assert_eq!(Case::Upper.to_case("hello world".to_owned()), "HELLO WORLD".to_owned());
    assert_eq!(Case::Upper.to_case("hello_world".to_owned()), "HELLO_WORLD".to_owned());
    assert_eq!(Case::Lower.to_case("HELLO WORLD".to_owned()), "hello world".to_owned());
    assert_eq!(Case::Lower.to_case("HELLO_WORLD".to_owned()), "hello_world".to_owned());
}

#[test]
fn case_detection() {
    assert!(Case::Same.is_case("Hello world"));
    assert!(!Case::Camel.is_case("hello-world"));
    assert!(Case::Camel.is_case("helloWorld"));
    assert!(!Case::Kebab.is_case("hello_world"));
    assert!(Case::Kebab.is_case("hello-world"));
    assert!(!Case::Snake.is_case("HelloWorld"));
    assert!(Case::Snake.is_case("hello_world"));
    assert!(!Case::Class.is_case("HELLO_WORLD"));
    assert!(Case::Class.is_case("HelloWorld"));
    assert!(!Case::Screaming.is_case("helloWorld"));
    assert!(Case::Screaming.is_case("HELLO_WORLD"));
    assert!(!Case::Sentence.is_case("Hello World"));
    assert!(Case::Sentence.is_case("Hello world"));
    assert!(!Case::Title.is_case("Hello world"));
    assert!(Case::Title.is_case("Hello World"));
    assert!(!Case::Upper.is_case("Hello world"));
    assert!(Case::Upper.is_case("HELLO WORLD"));
    assert!(!Case::Lower.is_case("Hello world"));
    assert!(Case::Lower.is_case("hello world"));
}

#[test]
fn memory_ties_keep_input_order() {
    let mut memory = Memory::new();
    let mut records = vec![
        obj(vec![("n", Value::I64(1)), ("id", Value::I64(0))]),
        obj(vec![("n", Value::I64(0)), ("id", Value::I64(1))]),
        obj(vec![("n", Value::I64(1)), ("id", Value::I64(2))]),
        obj(vec![("n", Value::I64(0)), ("id", Value::I64(3))]),
    ];
    memory.append_to_collection("t", &mut records);
    let rules = vec![Sort::new(vec!["n".to_string()], true)];
    let ids: Vec<Value> = memory
        .read("t", &Condition::True, &rules, &Range::default())
        .iter()
        .map(|v| v.get("id").unwrap().duplicate())
        .collect();
    assert_eq!(ids, vec![Value::I64(1), Value::I64(3), Value::I64(0), Value::I64(2)]);
    let unsorted: Vec<Value> = memory
        .read("t", &Condition::True, &vec![], &Range::new(Some(1), Some(2)))
        .iter()
        .map(|v| v.get("id").unwrap().duplicate())
        .collect();
    assert_eq!(unsorted, vec![Value::I64(1), Value::I64(2)]);
}
