//! Schema definitions: the document form in which a schema is written (as
//! JSON or YAML, read by a collaborator), its conversion into a `Schema`,
//! and the definition that owns one schema per named type.

use vstd::prelude::*;

use crate::entries::{entries_view, lemma_find_key, lookup, position, put, put_entry};
use crate::error::{opt_view, Error, ErrorCode, ErrorView};
use crate::query::Query;
use crate::schema::{query_error, Schema};
use crate::value::{found, Value};

verus! {

broadcast use vstd::std_specs::vec::group_vec_axioms;

/// A schema as written in a definition document, before it is checked.
/// Number bounds are IEEE-754 binary64 bit patterns.
#[derive(Debug)]
pub struct SchemaDocument {
    pub kind: Option<String>,
    pub multiple_of: Option<u64>,
    pub minimum: Option<u64>,
    pub exclusive_minimum: Option<bool>,
    pub maximum: Option<u64>,
    pub exclusive_maximum: Option<bool>,
    pub min_length: Option<u64>,
    pub max_length: Option<u64>,
    pub pattern: Option<String>,
    pub items: Option<Box<SchemaDocument>>,
    pub properties: Option<Vec<(String, SchemaDocument)>>,
    pub required: Option<Vec<String>>,
    pub additional_properties: Option<bool>,
    pub enum_values: Option<Vec<String>>,
}

/// Whether a type name is one that a schema document may give.
pub open spec fn known_type(t: Seq<char>) -> bool {
    t == "null"@ || t == "boolean"@ || t == "number"@ || t == "integer"@ || t == "string"@ || t
        == "array"@ || t == "object"@
}

/// The number of properties a document describes.
pub open spec fn doc_width(d: SchemaDocument) -> int {
    match d.properties {
        Some(ps) => ps@.len() as int,
        None => 0,
    }
}

/// The error of an array document without `items`.
pub open spec fn missing_items_error() -> ErrorView {
    ErrorView {
        code: ErrorCode::BadRequest,
        message: "Missing `items` property for type 'array'."@,
        hint: Some("Add a schema at `items`."@),
    }
}

/// The error of an unknown type name.
pub open spec fn invalid_type_error(t: Seq<char>) -> ErrorView {
    ErrorView {
        code: ErrorCode::BadRequest,
        message: "Invalid type '"@ + t + "'."@,
        hint: Some("Use a permitted type like 'string' and not '"@ + t + "'."@),
    }
}

/// The error of a document with neither a type nor an enumeration.
pub open spec fn no_type_error() -> ErrorView {
    ErrorView {
        code: ErrorCode::BadRequest,
        message: "No schema type specified."@,
        hint: Some("Set a `type` property or an `enum` property."@),
    }
}

/// The first error of converting a document, looking at the properties of
/// an object document from the `i`-th on, in order.
pub open spec fn doc_error_from(d: SchemaDocument, i: int) -> Option<ErrorView>
    decreases d, doc_width(d) - i,
{
    match d.kind {
        Some(t) => if t@ == "array"@ {
            match d.items {
                Some(it) => doc_error_from(*it, 0),
                None => Some(missing_items_error()),
            }
        } else if t@ == "object"@ {
            match d.properties {
                Some(ps) => if 0 <= i < ps@.len() {
                    match doc_error_from(ps@[i].1, 0) {
                        Some(e) => Some(e),
                        None => doc_error_from(d, i + 1),
                    }
                } else {
                    None
                },
                None => None,
            }
        } else if known_type(t@) {
            None
        } else {
            Some(invalid_type_error(t@))
        },
        None => if d.enum_values is Some {
            None
        } else {
            Some(no_type_error())
        },
    }
}

/// The error of converting a document: an array without `items`, an
/// unknown type name, neither a type nor an enumeration, or the first error
/// of a nested document.
pub open spec fn doc_error(d: SchemaDocument) -> Option<ErrorView> {
    doc_error_from(d, 0)
}

/// Whether `s` is the schema that a document without error converts to.
pub open spec fn doc_schema(d: SchemaDocument, s: Schema) -> bool
    decreases d,
{
    match d.kind {
        Some(t) => if t@ == "null"@ {
            s == Schema::Null
        } else if t@ == "boolean"@ {
            s == Schema::Boolean
        } else if t@ == "number"@ || t@ == "integer"@ {
            s == (Schema::Number {
                multiple_of: d.multiple_of,
                minimum: d.minimum,
                exclusive_minimum: d.exclusive_minimum == Some(true),
                maximum: d.maximum,
                exclusive_maximum: d.exclusive_maximum == Some(true),
            })
        } else if t@ == "string"@ {
            s matches Schema::String { min_length, max_length, pattern } && min_length
                == d.min_length && max_length == d.max_length && opt_view(pattern) == opt_view(
                d.pattern,
            )
        } else if t@ == "array"@ {
            s matches Schema::Array { items } && d.items matches Some(it) && doc_schema(*it, *items)
        } else {
            s matches Schema::Object { properties, required, additional_properties } && (
            additional_properties == (d.additional_properties == Some(true))) && match d.required {
                Some(rs) => required@.len() == rs@.len() && forall|j: int|
                    0 <= j < rs@.len() ==> (#[trigger] required@[j])@ == rs@[j]@,
                None => required@.len() == 0,
            } && match d.properties {
                Some(ps) => properties@.len() == ps@.len() && forall|j: int|
                    0 <= j < ps@.len() ==> (#[trigger] properties@[j]).0@ == ps@[j].0@ && doc_schema(
                        ps@[j].1,
                        properties@[j].1,
                    ),
                None => properties@.len() == 0,
            }
        },
        None => s matches Schema::Enum(values) && d.enum_values matches Some(vs) && values@.len()
            == vs@.len() && forall|j: int|
            0 <= j < vs@.len() ==> ((#[trigger] values@[j]) matches Value::String(x) && x@ == vs@[j]@),
    }
}

fn copy_opt(s: &Option<String>) -> (r: Option<String>)
    ensures
        opt_view(r) == opt_view(*s),
{
    match s {
        Some(t) => Some(t.clone()),
        None => None,
    }
}

fn strings_to_values(vs: &Vec<String>) -> (r: Vec<Value>)
    ensures
        r@.len() == vs@.len(),
        forall|j: int|
            0 <= j < vs@.len() ==> ((#[trigger] r@[j]) matches Value::String(x) && x@ == vs@[j]@),
{
    let mut r: Vec<Value> = Vec::new();
    let mut i: usize = 0;
    while i < vs.len()
        invariant
            i <= vs@.len(),
            r@.len() == i,
            forall|j: int|
                0 <= j < i ==> ((#[trigger] r@[j]) matches Value::String(x) && x@ == vs@[j]@),
        decreases vs@.len() - i,
    {
        r.push(Value::String(vs[i].clone()));
        i = i + 1;
    }
    r
}

fn copy_strings(vs: &Vec<String>) -> (r: Vec<String>)
    ensures
        r@.len() == vs@.len(),
        forall|j: int| 0 <= j < vs@.len() ==> (#[trigger] r@[j])@ == vs@[j]@,
{
    let mut r: Vec<String> = Vec::new();
    let mut i: usize = 0;
    while i < vs.len()
        invariant
            i <= vs@.len(),
            r@.len() == i,
            forall|j: int| 0 <= j < i ==> (#[trigger] r@[j])@ == vs@[j]@,
        decreases vs@.len() - i,
    {
        r.push(vs[i].clone());
        i = i + 1;
    }
    r
}

impl SchemaDocument {
    /// Converts the document into a schema. `number` and `integer` give a
    /// number schema, an object document lists its properties in order, and
    /// a document without a type but with an enumeration gives an enum of
    /// strings. Fails (`BadRequest`, with a hint) on an array document
    /// without `items`, an unknown type name, or neither a type nor an
    /// enumeration, here or in a nested document (see `doc_error`).
#[verifier::rlimit(50)]
    pub fn to_schema(&self) -> (r: Result<Schema, Error>)
        ensures
            match doc_error(*self) {
                Some(e) => r matches Err(f) && f@ == e,
                None => r matches Ok(s) && doc_schema(*self, s),
            },
        decreases self,
    {
        match &self.kind {
            Some(t) => {
                let name = t.as_str();
                proof {
                    reveal_strlit("null");
                    reveal_strlit("boolean");
                    reveal_strlit("number");
                    reveal_strlit("integer");
                    reveal_strlit("string");
                    reveal_strlit("array");
                    reveal_strlit("object");
                }
                if t.eq(&String::from_str("null")) {
                    proof {
                        assert(doc_error(*self) is None);
                    }
                    Ok(Schema::Null)
                } else if t.eq(&String::from_str("boolean")) {
                    proof {
                        assert(doc_error(*self) is None);
                    }
                    Ok(Schema::Boolean)
                } else if t.eq(&String::from_str("number")) || t.eq(&String::from_str("integer")) {
                    let r = Schema::Number {
                        multiple_of: self.multiple_of,
                        minimum: self.minimum,
                        exclusive_minimum: self.exclusive_minimum == Some(true),
                        maximum: self.maximum,
                        exclusive_maximum: self.exclusive_maximum == Some(true),
                    };
                    proof {
                        assert(t@ != "array"@);
                        assert("object"@[0] == 'o');
                        assert(t@[0] != 'o');
                        assert(t@ != "object"@);
                        assert(known_type(t@));
                        assert(doc_error(*self) is None);
                        assert(doc_schema(*self, r));
                    }
                    Ok(r)
                } else if t.eq(&String::from_str("string")) {
                    let r = Schema::String {
                        min_length: self.min_length,
                        max_length: self.max_length,
                        pattern: copy_opt(&self.pattern),
                    };
                    proof {
                        assert(t@ != "array"@);
                        assert("object"@[0] == 'o');
                        assert(t@[0] == 's');
                        assert(t@ != "object"@);
                        assert(doc_error(*self) is None);
                        assert(doc_schema(*self, r));
                    }
                    Ok(r)
                } else if t.eq(&String::from_str("array")) {
                    match &self.items {
                        Some(it) => {
                            proof {
                                assert(decreases_to!(*self => self.items));
                                assert(decreases_to!(self.items => self.items->Some_0));
                            }
                            match it.to_schema() {
                                Ok(items) => {
                                    let r = Schema::Array { items: Box::new(items) };
                                    proof {
                                        assert(doc_error(*self) is None);
                                        assert(doc_schema(*self, r));
                                    }
                                    Ok(r)
                                },
                                Err(e) => {
                                    proof {
                                        assert(doc_error(*self) == Some(e@));
                                    }
                                    Err(e)
                                },
                            }
                        },
                        None => Err(
                            Error::validation(
                                String::from_str("Missing `items` property for type 'array'."),
                                String::from_str("Add a schema at `items`."),
                            ),
                        ),
                    }
                } else if t.eq(&String::from_str("object")) {
                    let required = match &self.required {
                        Some(rs) => copy_strings(rs),
                        None => Vec::new(),
                    };
                    let mut properties: Vec<(String, Schema)> = Vec::new();
                    match &self.properties {
                        Some(ps) => {
                            let mut i: usize = 0;
                            while i < ps.len()
                                invariant
                                    i <= ps@.len(),
                                    self.properties == Some(*ps),
                                    self.kind == Some(*t),
                                    t@ == "object"@,
                                    t@ != "array"@,
                                    properties@.len() == i,
                                    doc_error(*self) == doc_error_from(*self, i as int),
                                    forall|j: int|
                                        0 <= j < i ==> (#[trigger] properties@[j]).0@ == ps@[j].0@
                                            && doc_schema(ps@[j].1, properties@[j].1),
                                decreases ps@.len() - i,
                            {
                                proof {
                                    assert(decreases_to!(*self => self.properties));
                                    assert(decreases_to!(self.properties => self.properties->Some_0));
                                    assert(decreases_to!(*ps => ps@));
                                    assert(decreases_to!(ps@ => ps@[i as int]));
                                    assert(decreases_to!(ps@[i as int] => ps@[i as int].1));
                                }
                                match ps[i].1.to_schema() {
                                    Ok(s) => {
                                        properties.push((ps[i].0.clone(), s));
                                    },
                                    Err(e) => {
                                        proof {
                                            assert(doc_error_from(*self, i as int) == Some(e@));
                                        }
                                        return Err(e);
                                    },
                                }
                                i = i + 1;
                            }
                            proof {
                                assert(decreases_to!(*self => self.properties));
                                assert(decreases_to!(self.properties => self.properties->Some_0));
                                assert(decreases_to!(*ps => ps@));
                                assert forall|j: int| 0 <= j < ps@.len() implies decreases_to!(
                                    *self => #[trigger] ps@[j].1) by {
                                    assert(decreases_to!(ps@ => ps@[j]));
                                    assert(decreases_to!(ps@[j] => ps@[j].1));
                                }
                            }
                        },
                        None => {},
                    }
                    let r = Schema::Object {
                        properties,
                        required,
                        additional_properties: self.additional_properties == Some(true),
                    };
                    proof {
                        assert(doc_error(*self) is None);
                        assert(doc_schema(*self, r));
                    }
                    Ok(r)
                } else {
                    let message = String::from_str("Invalid type '").concat(name).concat("'.");
                    let hint = String::from_str("Use a permitted type like 'string' and not '").concat(
                        name,
                    ).concat("'.");
                    proof {
                        assert(!known_type(t@));
                        assert(doc_error(*self) == Some(invalid_type_error(t@)));
                    }
                    Err(Error::validation(message, hint))
                }
            },
            None => match &self.enum_values {
                Some(vs) => {
                    let r = Schema::Enum(strings_to_values(vs));
                    proof {
                        assert(doc_error(*self) is None);
                        assert(doc_schema(*self, r));
                    }
                    Ok(r)
                },
                None => Err(
                    Error::validation(
                        String::from_str("No schema type specified."),
                        String::from_str("Set a `type` property or an `enum` property."),
                    ),
                ),
            },
        }
    }
}

/// The snake_case form of a name.
pub uninterp spec fn snake_of(s: Seq<char>) -> Seq<char>;

/// Relies on `inflections::case::to_snake_case`: the result depends on the
/// characters of the name alone, and an empty name stays empty.
#[verifier::external_body]
fn snake_case(s: &str) -> (r: String)
    ensures
        r@ == snake_of(s@),
        s@.len() == 0 ==> r@.len() == 0,
{
    inflections::case::to_snake_case(s)
}

/// A definition: one schema per named type. Type names are kept in
/// snake_case, so that a service may show them in whatever case it likes.
#[derive(Debug)]
pub struct Definition {
    types: Vec<(String, Schema)>,
}

impl View for Definition {
    type V = Seq<(String, Schema)>;

    closed spec fn view(&self) -> Seq<(String, Schema)> {
        self.types@
    }
}

/// The first error of converting the documents from the `i`-th on.
pub open spec fn first_doc_error(docs: Seq<(String, SchemaDocument)>, i: int) -> Option<ErrorView>
    decreases docs.len() - i,
{
    if 0 <= i < docs.len() {
        match doc_error(docs[i].1) {
            Some(e) => Some(e),
            None => first_doc_error(docs, i + 1),
        }
    } else {
        None
    }
}

/// The error of a read from a type that the definition does not have.
pub open spec fn unknown_type_error(name: Seq<char>) -> ErrorView {
    ErrorView {
        code: ErrorCode::NotFound,
        message: "Cannot use type '"@ + name + "' because it does not exist in the schema."@,
        hint: None,
    }
}

impl Definition {
    /// An empty definition.
    pub fn new() -> (r: Definition)
        ensures
            r@ == Seq::<(String, Schema)>::empty(),
    {
        Definition { types: Vec::new() }
    }

    /// Adds a type under the snake_case form of its name, replacing the
    /// schema of a type of that name.
    pub fn add_type(&mut self, name: &str, schema: Schema)
        ensures
            entries_view(final(self)@) == put(old(self)@, snake_of(name@), schema),
    {
        let key = snake_case(name);
        put_entry(&mut self.types, key, schema);
    }

    /// The schema of a type, by its snake_case name.
    pub fn get_type(&self, name: &str) -> (r: Option<&Schema>)
        ensures
            found(r) == lookup(self@, name@),
    {
        match position(&self.types, name) {
            Some(i) => {
                proof {
                    lemma_find_key(self@, name@);
                }
                Some(&self.types[i].1)
            },
            None => None,
        }
    }

    /// Checks a read before it goes to a driver: the type must exist
    /// (`NotFound` otherwise), and the selection must be valid under its
    /// schema (see `query_error`).
    pub fn validate_read(&self, name: &str, query: &Query) -> (r: Result<(), Error>)
        ensures
            match lookup(self@, name@) {
                None => r matches Err(e) && e@ == unknown_type_error(name@),
                Some(s) => match query_error(s, *query) {
                    None => r is Ok,
                    Some(e) => r matches Err(f) && f@ == e,
                },
            },
    {
        match self.get_type(name) {
            Some(schema) => schema.validate_query(query),
            None => {
                let message = String::from_str("Cannot use type '").concat(name).concat(
                    "' because it does not exist in the schema.",
                );
                Err(Error::not_found(message))
            },
        }
    }

    /// The types, in the order they were first added.
    pub fn types(&self) -> (r: &Vec<(String, Schema)>)
        ensures
            r@ == self@,
    {
        &self.types
    }

    /// Builds a definition from named schema documents, in order. Fails with
    /// the first error of a document (see `doc_error`); otherwise every name
    /// has a type, and every type is the schema of a document of that name.
#[verifier::rlimit(50)]
    pub fn from_documents(docs: &Vec<(String, SchemaDocument)>) -> (r: Result<Definition, Error>)
        ensures
            match first_doc_error(docs@, 0) {
                Some(e) => r matches Err(f) && f@ == e,
                None => r matches Ok(d) && (forall|j: int|
                    0 <= j < docs@.len() ==> lookup(d@, snake_of((#[trigger] docs@[j]).0@)) is Some)
                    && forall|k: int|
                    0 <= k < d@.len() ==> exists|j: int|
                        0 <= j < docs@.len() && (#[trigger] d@[k]).0@ == snake_of(docs@[j].0@)
                            && doc_schema(docs@[j].1, d@[k].1),
            },
    {
        let mut d = Definition::new();
        let mut i: usize = 0;
        while i < docs.len()
            invariant
                i <= docs@.len(),
                first_doc_error(docs@, 0) == first_doc_error(docs@, i as int),
                forall|j: int|
                    0 <= j < i ==> lookup(d@, snake_of((#[trigger] docs@[j]).0@)) is Some,
                forall|k: int|
                    0 <= k < d@.len() ==> exists|j: int|
                        0 <= j < i && (#[trigger] d@[k]).0@ == snake_of(docs@[j].0@) && doc_schema(
                            docs@[j].1,
                            d@[k].1,
                        ),
            decreases docs@.len() - i,
        {
            match docs[i].1.to_schema() {
                Ok(s) => {
                    let ghost before = d@;
                    let ghost key = snake_of(docs@[i as int].0@);
                    d.add_type(docs[i].0.as_str(), s);
                    proof {
                        lemma_find_key(before, key);
                        crate::entries::lemma_find_key(d@, key);
                        assert(entries_view(d@).len() == d@.len());
                        assert forall|k: int| 0 <= k < d@.len() implies #[trigger] entries_view(d@)[k]
                            == (d@[k].0@, d@[k].1) by {}
                        assert forall|j: int| 0 <= j < i + 1 implies lookup(
                            d@,
                            snake_of((#[trigger] docs@[j]).0@),
                        ) is Some by {
                            let kj = snake_of(docs@[j].0@);
                            lemma_find_key(before, kj);
                            lemma_find_key(d@, kj);
                            lemma_find_key(before, key);
                            if j < i {
                                let p = crate::entries::find_key(before, kj)->0;
                                assert(entries_view(before)[p] == (before[p].0@, before[p].1));
                                assert(entries_view(d@)[p].0 == kj);
                                assert(d@[p].0@ == kj);
                            } else {
                                match crate::entries::find_key(before, key) {
                                    Some(q) => {
                                        assert(entries_view(d@)[q].0 == key);
                                        assert(d@[q].0@ == kj);
                                    },
                                    None => {
                                        let q = before.len() as int;
                                        assert(entries_view(d@)[q].0 == key);
                                        assert(d@[q].0@ == kj);
                                    },
                                }
                            }
                        }
                        assert forall|k: int| 0 <= k < d@.len() implies exists|j: int|
                            0 <= j < i + 1 && (#[trigger] d@[k]).0@ == snake_of(docs@[j].0@)
                                && doc_schema(docs@[j].1, d@[k].1) by {
                            if entries_view(d@)[k] == (key, s) {
                                assert(d@[k].0@ == snake_of(docs@[i as int].0@));
                            } else {
                                assert(k < before.len());
                                assert(entries_view(d@)[k] == (before[k].0@, before[k].1));
                                assert(d@[k] == before[k] || d@[k].0@ == before[k].0@);
                            }
                        }
                    }
                },
                Err(e) => {
                    return Err(e);
                },
            }
            i = i + 1;
        }
        Ok(d)
    }
}

} // verus!
