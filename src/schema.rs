//! Schemas: a restricted, tree-searchable subset of JSON Schema describing
//! the permitted shape of stored data, and the validation of selections
//! against them.

use vstd::prelude::*;

use crate::entries::{keys_of, lemma_find_key, lookup, position};
use crate::error::{Error, ErrorCode, ErrorView};
use crate::query::Query;
use crate::value::{all_digits, is_digit, pointer_view, Pointer, Value};

verus! {

broadcast use vstd::std_specs::vec::group_vec_axioms;

/// Whether a key matches the regular expression `^\d+$`.
pub uninterp spec fn integer_key(k: Seq<char>) -> bool;

/// Relies on `regex::Regex::is_match` with the pattern `^\d+$`: it matches
/// a non-empty key of digits (`\d` is any Unicode decimal digit, `\p{Nd}`),
/// so a match has at least one character, its ASCII characters are all
/// `0` to `9`, and a key of ASCII digits matches.
#[verifier::external_body]
fn is_integer_key(key: &str) -> (r: bool)
    ensures
        r == integer_key(key@),
        r ==> key@.len() > 0,
        r ==> forall|i: int| 0 <= i < key@.len() && (key@[i] as u32) < 128 ==> is_digit(#[trigger] key@[i]),
        key@.len() > 0 && all_digits(key@) ==> r,
{
    regex::Regex::new(r"^\d+$").unwrap().is_match(key)
}

/// A schema describing what the data at some point may be.
#[derive(Debug)]
pub enum Schema {
    /// No constraint applies here. This is not the absence of a value.
    Any,
    /// The absence of any value.
    Null,
    /// True or false.
    Boolean,
    /// A number. Each bound is an IEEE-754 binary64 bit pattern.
    Number {
        multiple_of: Option<u64>,
        minimum: Option<u64>,
        exclusive_minimum: bool,
        maximum: Option<u64>,
        exclusive_maximum: bool,
    },
    /// A string, with optional bounds on its length and a pattern.
    String { min_length: Option<u64>, max_length: Option<u64>, pattern: Option<String> },
    /// An array whose every item follows `items`.
    Array { items: Box<Schema> },
    /// An object with described properties, the keys that must be present,
    /// and whether other keys may be present.
    Object { properties: Vec<(String, Schema)>, required: Vec<String>, additional_properties: bool },
    /// One of a fixed list of values.
    Enum(Vec<Value>),
}

/// The schema directly under a key: an array schema's `items` for an
/// integer key, an object schema's property; nothing under any other schema.
pub open spec fn sub_schema(s: Schema, k: Seq<char>) -> Option<Schema> {
    match s {
        Schema::Array { items } => if integer_key(k) {
            Some(*items)
        } else {
            None
        },
        Schema::Object { properties, .. } => lookup(properties@, k),
        _ => None,
    }
}

/// The schema at a pointer, the way a value is traversed.
pub open spec fn schema_at(s: Schema, p: Seq<Seq<char>>) -> Option<Schema>
    decreases p.len(),
{
    if p.len() == 0 {
        Some(s)
    } else {
        match sub_schema(s, p[0]) {
            Some(t) => schema_at(t, p.drop_first()),
            None => None,
        }
    }
}

/// The hint of a deep query on a primitive schema.
pub open spec fn primitive_hint() -> Seq<char> {
    "Try not querying specific properties of a primitive like `null` or `boolean`."@
}

/// The error of selecting keys under a schema that holds none.
pub open spec fn deep_query_error(message: Seq<char>) -> ErrorView {
    ErrorView { code: ErrorCode::BadRequest, message, hint: Some(primitive_hint()) }
}

/// The error of selecting a key of an array that is no integer.
pub open spec fn non_integer_error(k: Seq<char>) -> ErrorView {
    ErrorView {
        code: ErrorCode::BadRequest,
        message: "Cannot query non-integer \""@ + k + "\" array property."@,
        hint: Some("Only query integer array keys like 1, 2, and 3."@),
    }
}

/// The error of selecting a property that an object schema does not allow.
pub open spec fn object_property_error(k: Seq<char>) -> ErrorView {
    ErrorView {
        code: ErrorCode::BadRequest,
        message: "Cannot query object property \""@ + k + "\"."@,
        hint: Some("Query an object property that is defined in the schema."@),
    }
}

/// The number of keys a selection names.
pub open spec fn width(q: Query) -> int {
    match q {
        Query::Keys(es) => es@.len() as int,
        Query::All => 0,
    }
}

/// The first error of checking the keys of `q` from the `i`-th on against
/// `s`, in the order of the keys; `None` when they pass.
pub open spec fn check_from(s: Schema, q: Query, i: int) -> Option<ErrorView>
    decreases q, width(q) - i,
{
    match q {
        Query::All => None,
        Query::Keys(es) => match s {
            Schema::Any => None,
            Schema::Null => Some(deep_query_error("Cannot deeply query null."@)),
            Schema::Boolean => Some(deep_query_error("Cannot deeply query a boolean."@)),
            Schema::Number { .. } => Some(deep_query_error("Cannot deeply query a number."@)),
            Schema::String { .. } => Some(deep_query_error("Cannot deeply query a string."@)),
            Schema::Enum(_) => Some(deep_query_error("Cannot deeply query an enum."@)),
            Schema::Array { items } => if 0 <= i < es@.len() {
                if !integer_key(es@[i].0@) {
                    Some(non_integer_error(es@[i].0@))
                } else {
                    match check_from(*items, es@[i].1, 0) {
                        Some(e) => Some(e),
                        None => check_from(s, q, i + 1),
                    }
                }
            } else {
                None
            },
            Schema::Object { properties, additional_properties, .. } => if 0 <= i < es@.len() {
                match lookup(properties@, es@[i].0@) {
                    Some(t) => match check_from(t, es@[i].1, 0) {
                        Some(e) => Some(e),
                        None => check_from(s, q, i + 1),
                    },
                    None => if additional_properties {
                        check_from(s, q, i + 1)
                    } else {
                        Some(object_property_error(es@[i].0@))
                    },
                }
            } else {
                None
            },
        },
    }
}

/// The error of validating a selection against a schema: `None` for a schema
/// without constraint or a selection of everything; for a primitive schema,
/// the error of any selection of keys; for an array or object schema, the
/// error of the first key, in order, that the schema refuses or whose own
/// selection fails.
pub open spec fn query_error(s: Schema, q: Query) -> Option<ErrorView> {
    check_from(s, q, 0)
}

fn deep_query(message: &str) -> (r: Error)
    ensures
        r@ == deep_query_error(message@),
{
    Error::validation(
        String::from_str(message),
        String::from_str(
            "Try not querying specific properties of a primitive like `null` or `boolean`.",
        ),
    )
}

impl Schema {
    /// The schema under a key (see `sub_schema`).
    pub fn child(&self, key: &str) -> (r: Option<&Schema>)
        ensures
            crate::value::found(r) == sub_schema(*self, key@),
    {
        match self {
            Schema::Array { items } => {
                if is_integer_key(key) {
                    Some(&**items)
                } else {
                    None
                }
            },
            Schema::Object { properties, .. } => match position(properties, key) {
                Some(i) => {
                    proof {
                        lemma_find_key(properties@, key@);
                    }
                    Some(&properties[i].1)
                },
                None => None,
            },
            _ => None,
        }
    }

    /// The schema that governs the location a pointer addresses: the empty
    /// pointer gives the schema itself, an array schema gives its `items`
    /// for any integer key, an object schema the property under the key;
    /// every other case is `None`.
    pub fn get(&self, pointer: &Pointer) -> (r: Option<&Schema>)
        ensures
            crate::value::found(r) == schema_at(*self, pointer_view(pointer@)),
    {
        let ghost p = pointer_view(pointer@);
        let mut current: &Schema = self;
        let mut i: usize = 0;
        proof {
            assert(p.subrange(0, p.len() as int) =~= p);
        }
        while i < pointer.len()
            invariant
                i <= pointer.len(),
                p == pointer_view(pointer@),
                schema_at(*self, p) == schema_at(*current, p.subrange(i as int, p.len() as int)),
            decreases pointer.len() - i,
        {
            let ghost rest = p.subrange(i as int, p.len() as int);
            proof {
                assert(rest[0] == pointer@[i as int]@);
                assert(rest.drop_first() =~= p.subrange(i + 1, p.len() as int));
            }
            match current.child(pointer[i].as_str()) {
                Some(next) => {
                    current = next;
                },
                None => {
                    return None;
                },
            }
            i = i + 1;
        }
        proof {
            assert(p.subrange(i as int, p.len() as int) =~= Seq::<Seq<char>>::empty());
        }
        Some(current)
    }

    /// Validates a selection against the schema: checks that every key it
    /// names may be present, recursively (see `query_error`).
#[verifier::rlimit(50)]
    pub fn validate_query(&self, query: &Query) -> (r: Result<(), Error>)
        ensures
            match query_error(*self, *query) {
                None => r is Ok,
                Some(e) => r matches Err(f) && f@ == e,
            },
        decreases query,
    {
        let es = match query {
            Query::All => {
                return Ok(());
            },
            Query::Keys(es) => es,
        };
        match self {
            Schema::Any => Ok(()),
            Schema::Null => Err(deep_query("Cannot deeply query null.")),
            Schema::Boolean => Err(deep_query("Cannot deeply query a boolean.")),
            Schema::Number { .. } => Err(deep_query("Cannot deeply query a number.")),
            Schema::String { .. } => Err(deep_query("Cannot deeply query a string.")),
            Schema::Enum(_) => Err(deep_query("Cannot deeply query an enum.")),
            Schema::Array { items } => {
                let mut i: usize = 0;
                while i < es.len()
                    invariant
                        i <= es@.len(),
                        *query == Query::Keys(*es),
                        *self == (Schema::Array { items: *items }),
                        query_error(*self, *query) == check_from(*self, *query, i as int),
                    decreases es@.len() - i,
                {
                    proof {
                        assert(decreases_to!(*query => query->Keys_0));
                        assert(decreases_to!(*es => es@));
                        assert(decreases_to!(es@ => es@[i as int]));
                        assert(decreases_to!(es@[i as int] => es@[i as int].1));
                    }
                    let key = es[i].0.as_str();
                    if !is_integer_key(key) {
                        let message = String::from_str("Cannot query non-integer \"").concat(
                            key,
                        ).concat("\" array property.");
                        return Err(
                            Error::validation(
                                message,
                                String::from_str("Only query integer array keys like 1, 2, and 3."),
                            ),
                        );
                    }
                    match items.validate_query(&es[i].1) {
                        Ok(()) => {},
                        Err(e) => {
                            return Err(e);
                        },
                    }
                    i = i + 1;
                }
                Ok(())
            },
            Schema::Object { properties, required, additional_properties } => {
                let mut i: usize = 0;
                while i < es.len()
                    invariant
                        i <= es@.len(),
                        *query == Query::Keys(*es),
                        *self == (Schema::Object {
                            properties: *properties,
                            required: *required,
                            additional_properties: *additional_properties,
                        }),
                        query_error(*self, *query) == check_from(*self, *query, i as int),
                    decreases es@.len() - i,
                {
                    proof {
                        assert(decreases_to!(*query => query->Keys_0));
                        assert(decreases_to!(*es => es@));
                        assert(decreases_to!(es@ => es@[i as int]));
                        assert(decreases_to!(es@[i as int] => es@[i as int].1));
                    }
                    let key = es[i].0.as_str();
                    match position(properties, key) {
                        Some(j) => {
                            proof {
                                lemma_find_key(properties@, key@);
                            }
                            match properties[j].1.validate_query(&es[i].1) {
                                Ok(()) => {},
                                Err(e) => {
                                    return Err(e);
                                },
                            }
                        },
                        None => {
                            if !*additional_properties {
                                let message = String::from_str(
                                    "Cannot query object property \"",
                                ).concat(key).concat("\".");
                                return Err(
                                    Error::validation(
                                        message,
                                        String::from_str(
                                            "Query an object property that is defined in the schema.",
                                        ),
                                    ),
                                );
                            }
                        },
                    }
                    i = i + 1;
                }
                Ok(())
            },
        }
    }
}

/// Selecting everything is valid under every schema.
pub proof fn lemma_select_all_is_valid(s: Schema)
    ensures
        query_error(s, Query::All) is None,
{
}

/// Under an object schema that allows no other properties, selecting all of
/// a single key is valid exactly when the key is one of the schema's
/// properties; otherwise the error's message holds the key.
pub proof fn lemma_object_single_key(
    properties: Vec<(String, Schema)>,
    required: Vec<String>,
    es: Vec<(String, Query)>,
)
    requires
        es@.len() == 1,
        es@[0].1 is All,
    ensures
        ({
            let s = Schema::Object { properties, required, additional_properties: false };
            let k = es@[0].0@;
            &&& query_error(s, Query::Keys(es)) is None <==> keys_of(properties@).contains(k)
            &&& query_error(s, Query::Keys(es)) matches Some(e) ==> exists|i: int|
                0 <= i && i + k.len() <= e.message.len() && #[trigger] e.message.subrange(
                    i,
                    i + k.len(),
                ) == k
        }),
{
    let s = Schema::Object { properties, required, additional_properties: false };
    let q = Query::Keys(es);
    let k = es@[0].0@;
    assert(decreases_to!(q => q->Keys_0));
    assert(decreases_to!(es => es@));
    assert(decreases_to!(es@ => es@[0]));
    assert(decreases_to!(es@[0] => es@[0].1));
    lemma_find_key(properties@, k);
    match lookup(properties@, k) {
        Some(t) => {
            assert(check_from(t, Query::All, 0) is None);
            assert(check_from(s, q, 1) is None);
            assert(query_error(s, q) is None);
            let j = crate::entries::find_key(properties@, k)->0;
            assert(keys_of(properties@)[j] == k);
        },
        None => {
            let e = object_property_error(k);
            assert(query_error(s, q) == Some(e));
            let prefix = "Cannot query object property \""@;
            assert(e.message.subrange(prefix.len() as int, (prefix.len() + k.len()) as int) =~= k);
            assert(!keys_of(properties@).contains(k));
        },
    }
}

/// Under an array schema, selecting a single key is valid exactly when the
/// key matches `^\d+$` and the key's own selection is valid under the
/// schema of the items.
pub proof fn lemma_array_single_key(items: Box<Schema>, es: Vec<(String, Query)>)
    requires
        es@.len() == 1,
    ensures
        query_error(Schema::Array { items }, Query::Keys(es)) is None <==> (integer_key(es@[0].0@)
            && query_error(*items, es@[0].1) is None),
{
    let s = Schema::Array { items };
    let q = Query::Keys(es);
    assert(decreases_to!(q => q->Keys_0));
    assert(decreases_to!(es => es@));
    assert(decreases_to!(es@ => es@[0]));
    assert(decreases_to!(es@[0] => es@[0].1));
    assert(check_from(s, q, 1) is None);
}

} // verus!
