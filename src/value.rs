//! The dynamic value model: a JSON-like tagged value with pointer-based
//! reads and functional writes.

use std::cmp::Ordering;

use vstd::prelude::*;

use crate::entries::{entries_view, lemma_find_key, lookup, position, put, put_entry};
use crate::error::{Error, ErrorCode, ErrorView};

verus! {

broadcast use vstd::std_specs::vec::group_vec_axioms;

/// A key of an object, or the decimal index of an array element.
pub type Key = String;

/// A sequence of keys addressing a nested location.
pub type Pointer = Vec<String>;

/// An ordered mapping of keys to values, like a JSON object. Keys are unique
/// and keep the order in which they were first inserted.
#[derive(Debug)]
pub struct Object {
    entries: Vec<(String, Value)>,
}

/// A dynamic value, after the types of JSON.
#[derive(Debug)]
pub enum Value {
    /// The absence of any value.
    Null,
    /// True or false.
    Boolean(bool),
    /// A 64-bit integer.
    I64(i64),
    /// A 64-bit floating point number, held as its IEEE-754 binary64 bit
    /// pattern.
    F64(u64),
    /// A string.
    String(String),
    /// An ordered mapping of keys to values.
    Object(Object),
    /// An ordered sequence of values.
    Array(Vec<Value>),
}

impl View for Object {
    type V = Seq<(String, Value)>;

    closed spec fn view(&self) -> Seq<(String, Value)> {
        self.entries@
    }
}

/// The keys of a pointer.
pub open spec fn pointer_view(p: Seq<String>) -> Seq<Seq<char>> {
    p.map_values(|k: String| k@)
}

/// Whether a character is an ASCII decimal digit.
pub open spec fn is_digit(c: char) -> bool {
    '0' <= c <= '9'
}

/// Whether every character is an ASCII decimal digit.
pub open spec fn all_digits(s: Seq<char>) -> bool {
    forall|i: int| 0 <= i < s.len() ==> is_digit(s[i])
}

/// The number that a string of decimal digits writes.
pub open spec fn digits_value(s: Seq<char>) -> nat
    decreases s.len(),
{
    if s.len() == 0 {
        0
    } else {
        digits_value(s.drop_last()) * 10 + ((s.last() as u32) - ('0' as u32)) as nat
    }
}

/// The array index that a key writes: one or more ASCII decimal digits
/// whose value fits in `usize`.
pub open spec fn parse_index(k: Seq<char>) -> Option<nat> {
    if k.len() > 0 && all_digits(k) && digits_value(k) <= usize::MAX {
        Some(digits_value(k))
    } else {
        None
    }
}

/// The value directly under a key: an object's entry, or an array's element
/// at the index that the key writes.
pub open spec fn child(v: Value, k: Seq<char>) -> Option<Value> {
    match v {
        Value::Object(o) => lookup(o@, k),
        Value::Array(a) => match parse_index(k) {
            Some(n) => if n < a@.len() {
                Some(a@[n as int])
            } else {
                None
            },
            None => None,
        },
        _ => None,
    }
}

/// The value at a pointer: the empty pointer addresses the value itself.
pub open spec fn value_at(v: Value, p: Seq<Seq<char>>) -> Option<Value>
    decreases p.len(),
{
    if p.len() == 0 {
        Some(v)
    } else {
        match child(v, p[0]) {
            Some(c) => value_at(c, p.drop_first()),
            None => None,
        }
    }
}

/// A found reference, as a value.
pub open spec fn found<T>(r: Option<&T>) -> Option<T> {
    match r {
        Some(x) => Some(*x),
        None => None,
    }
}

/// Reads an array index from a key.
#[verifier::rlimit(40)]
pub fn parse_index_key(k: &str) -> (r: Option<usize>)
    ensures
        match r {
            Some(n) => parse_index(k@) == Some(n as nat),
            None => parse_index(k@) is None,
        },
{
    let n = k.unicode_len();
    if n == 0 {
        return None;
    }
    let mut i: usize = 0;
    let mut acc: usize = 0;
    let mut overflow = false;
    proof {
        assert(k@.subrange(0, 0) =~= Seq::<char>::empty());
    }
    while i < n
        invariant
            i <= n,
            n == k@.len(),
            forall|j: int| 0 <= j < i ==> is_digit(k@[j]),
            !overflow ==> acc == digits_value(k@.subrange(0, i as int)),
            overflow ==> digits_value(k@.subrange(0, i as int)) > usize::MAX,
        decreases n - i,
    {
        let c = k.get_char(i);
        if !('0' <= c && c <= '9') {
            proof {
                assert(!is_digit(k@[i as int]));
                assert(!all_digits(k@));
            }
            return None;
        }
        let ghost prefix = k@.subrange(0, i as int + 1);
        proof {
            assert(prefix.drop_last() =~= k@.subrange(0, i as int));
            assert(prefix.last() == c);
        }
        if !overflow {
            let digit = (c as u32 - '0' as u32) as usize;
            match acc.checked_mul(10) {
                Some(t) => match t.checked_add(digit) {
                    Some(u) => {
                        acc = u;
                    },
                    None => {
                        overflow = true;
                    },
                },
                None => {
                    overflow = true;
                },
            }
        }
        i = i + 1;
    }
    proof {
        assert(k@.subrange(0, n as int) =~= k@);
    }
    if overflow {
        None
    } else {
        Some(acc)
    }
}

impl Object {
    /// An empty object.
    pub fn new() -> (r: Object)
        ensures
            r@ == Seq::<(String, Value)>::empty(),
    {
        Object { entries: Vec::new() }
    }

    /// The value under a key.
    pub fn get(&self, key: &str) -> (r: Option<&Value>)
        ensures
            found(r) == lookup(self@, key@),
    {
        match position(&self.entries, key) {
            Some(i) => {
                proof {
                    lemma_find_key(self@, key@);
                }
                Some(&self.entries[i].1)
            },
            None => None,
        }
    }

    /// Puts a value under a key, replacing the value of a present key in
    /// place or appending a new entry. Returns the value that was replaced.
    pub fn insert(&mut self, key: String, value: Value) -> (r: Option<Value>)
        ensures
            entries_view(final(self)@) == put(old(self)@, key@, value),
            r == lookup(old(self)@, key@),
    {
        put_entry(&mut self.entries, key, value)
    }

    /// The number of entries.
    pub fn len(&self) -> (r: usize)
        ensures
            r == self@.len(),
    {
        self.entries.len()
    }

    /// The entries, in order.
    pub fn entries(&self) -> (r: &Vec<(String, Value)>)
        ensures
            r@ == self@,
    {
        &self.entries
    }
}

/// Whether `ks` are what `transform` gave for the keys of `from`, in order.
pub open spec fn keys_mapped<F: Fn(String) -> String>(
    transform: F,
    from: Seq<(String, Value)>,
    ks: Seq<String>,
) -> bool {
    ks.len() == from.len() && forall|i: int|
        0 <= i < from.len() ==> call_ensures(transform, (from[i].0,), #[trigger] ks[i])
}

/// Whether `es` are what `transform` gave for the entries of `from`, in
/// order.
pub open spec fn entries_mapped<F: Fn((String, Value)) -> (String, Value)>(
    transform: F,
    from: Seq<(String, Value)>,
    es: Seq<(String, Value)>,
) -> bool {
    es.len() == from.len() && forall|i: int|
        0 <= i < from.len() ==> call_ensures(transform, (from[i],), #[trigger] es[i])
}

impl Object {
    /// The object with each value transformed; keys and order are kept.
    #[verifier::rlimit(50)]
    pub fn map_values<F: Fn(Value) -> Value>(self, transform: F) -> (r: Object)
        requires
            forall|v: Value| call_requires(transform, (v,)),
        ensures
            r@.len() == self@.len(),
            forall|i: int|
                0 <= i < self@.len() ==> (#[trigger] r@[i]).0 == self@[i].0 && call_ensures(
                    transform,
                    (self@[i].1,),
                    r@[i].1,
                ),
    {
        let ghost orig = self@;
        let mut rest = self.entries;
        let n = rest.len();
        let mut out: Vec<(String, Value)> = Vec::new();
        let mut i: usize = 0;
        proof {
            assert(rest@ =~= orig.subrange(0, orig.len() as int));
        }
        while rest.len() > 0
            invariant
                i <= orig.len(),
                n == orig.len(),
                rest@ == orig.subrange(i as int, orig.len() as int),
                out@.len() == i,
                forall|v: Value| call_requires(transform, (v,)),
                forall|j: int|
                    0 <= j < i ==> (#[trigger] out@[j]).0 == orig[j].0 && call_ensures(
                        transform,
                        (orig[j].1,),
                        out@[j].1,
                    ),
            decreases rest@.len(),
        {
            proof {
                assert(rest@[0] == orig[i as int]);
            }
            let (k, v) = rest.remove(0);
            let w = transform(v);
            out.push((k, w));
            proof {
                assert(rest@ =~= orig.subrange(i + 1, orig.len() as int));
            }
            i = i + 1;
        }
        Object { entries: out }
    }

    /// The object with each key transformed, in order; a transformed key
    /// that is already present takes the value in place.
    #[verifier::rlimit(50)]
    pub fn map_keys<F: Fn(String) -> String>(self, transform: F) -> (r: Object)
        requires
            forall|k: String| call_requires(transform, (k,)),
        ensures
            exists|ks: Seq<String>|
                #[trigger] keys_mapped(transform, self@, ks) && entries_view(r@)
                    == crate::entries::merge(Seq::new(self@.len(), |i: int| (ks[i]@, self@[i].1))),
    {
        let ghost orig = self@;
        let mut rest = self.entries;
        let n = rest.len();
        let mut out = Object::new();
        let mut i: usize = 0;
        let ghost mut ks: Seq<String> = Seq::empty();
        proof {
            assert(rest@ =~= orig.subrange(0, orig.len() as int));
            assert(entries_view(out@) =~= crate::entries::merge(
                Seq::new(0, |j: int| (ks[j]@, orig[j].1)),
            ));
        }
        while rest.len() > 0
            invariant
                i <= orig.len(),
                n == orig.len(),
                rest@ == orig.subrange(i as int, orig.len() as int),
                ks.len() == i,
                forall|k: String| call_requires(transform, (k,)),
                forall|j: int| 0 <= j < i ==> call_ensures(transform, (orig[j].0,), #[trigger] ks[j]),
                entries_view(out@) == crate::entries::merge(
                    Seq::new(i as nat, |j: int| (ks[j]@, orig[j].1)),
                ),
            decreases rest@.len(),
        {
            proof {
                assert(rest@[0] == orig[i as int]);
            }
            let (k, v) = rest.remove(0);
            let nk = transform(k);
            let ghost before = out@;
            proof {
                crate::entries::lemma_find_view(before, nk@);
            }
            out.insert(nk, v);
            proof {
                let ks2 = ks.push(nk);
                let s1 = Seq::new(i as nat, |j: int| (ks[j]@, orig[j].1));
                let s2 = Seq::new((i + 1) as nat, |j: int| (ks2[j]@, orig[j].1));
                assert(s2.drop_last() =~= s1);
                assert(s2.last() == (nk@, v));
                ks = ks2;
                assert(rest@ =~= orig.subrange(i + 1, orig.len() as int));
            }
            i = i + 1;
        }
        proof {
            assert(orig.subrange(0, i as int) =~= orig);
            assert(keys_mapped(transform, orig, ks));
        }
        out
    }

    /// The object with each entry transformed, in order; a transformed key
    /// that is already present takes the value in place.
    #[verifier::rlimit(50)]
    pub fn map_entries<F: Fn((String, Value)) -> (String, Value)>(self, transform: F) -> (r: Object)
        requires
            forall|e: (String, Value)| call_requires(transform, (e,)),
        ensures
            exists|es: Seq<(String, Value)>|
                #[trigger] entries_mapped(transform, self@, es) && entries_view(r@)
                    == crate::entries::merge(entries_view(es)),
    {
        let ghost orig = self@;
        let mut rest = self.entries;
        let n = rest.len();
        let mut out = Object::new();
        let mut i: usize = 0;
        let ghost mut es: Seq<(String, Value)> = Seq::empty();
        proof {
            assert(rest@ =~= orig.subrange(0, orig.len() as int));
            assert(entries_view(out@) =~= crate::entries::merge(entries_view(es)));
        }
        while rest.len() > 0
            invariant
                i <= orig.len(),
                n == orig.len(),
                rest@ == orig.subrange(i as int, orig.len() as int),
                es.len() == i,
                forall|e: (String, Value)| call_requires(transform, (e,)),
                forall|j: int| 0 <= j < i ==> call_ensures(transform, (orig[j],), #[trigger] es[j]),
                entries_view(out@) == crate::entries::merge(entries_view(es)),
            decreases rest@.len(),
        {
            proof {
                assert(rest@[0] == orig[i as int]);
            }
            let e = rest.remove(0);
            let (nk, nv) = transform(e);
            let ghost before = out@;
            proof {
                crate::entries::lemma_find_view(before, nk@);
            }
            out.insert(nk, nv);
            proof {
                let es2 = es.push((nk, nv));
                assert(entries_view(es2).drop_last() =~= entries_view(es));
                assert(entries_view(es2).last() == (nk@, nv));
                es = es2;
                assert(rest@ =~= orig.subrange(i + 1, orig.len() as int));
            }
            i = i + 1;
        }
        proof {
            assert(entries_mapped(transform, orig, es));
        }
        out
    }
}

impl Value {
    /// An object with each key transformed (see `Object::map_keys`); any
    /// other value unchanged.
    pub fn map_keys<F: Fn(String) -> String>(self, transform: F) -> (r: Value)
        requires
            forall|k: String| call_requires(transform, (k,)),
        ensures
            match self {
                Value::Object(o) => r matches Value::Object(p) && exists|ks: Seq<String>|
                    #[trigger] keys_mapped(transform, o@, ks) && entries_view(p@)
                        == crate::entries::merge(Seq::new(o@.len(), |i: int| (ks[i]@, o@[i].1))),
                _ => r == self,
            },
    {
        match self {
            Value::Object(o) => Value::Object(o.map_keys(transform)),
            other => other,
        }
    }

    /// An object or an array with each value transformed, keys and order
    /// kept; any other value unchanged.
    #[verifier::rlimit(50)]
    pub fn map_values<F: Fn(Value) -> Value>(self, transform: F) -> (r: Value)
        requires
            forall|v: Value| call_requires(transform, (v,)),
        ensures
            match self {
                Value::Object(o) => r matches Value::Object(p) && p@.len() == o@.len() && forall|i: int|
                    0 <= i < o@.len() ==> (#[trigger] p@[i]).0 == o@[i].0 && call_ensures(
                        transform,
                        (o@[i].1,),
                        p@[i].1,
                    ),
                Value::Array(a) => r matches Value::Array(b) && b@.len() == a@.len() && forall|i: int|
                    0 <= i < a@.len() ==> call_ensures(transform, (a@[i],), #[trigger] b@[i]),
                _ => r == self,
            },
    {
        match self {
            Value::Object(o) => Value::Object(o.map_values(transform)),
            Value::Array(a) => {
                let ghost orig = a@;
                let mut rest = a;
                let n = rest.len();
                let mut out: Vec<Value> = Vec::new();
                let mut i: usize = 0;
                proof {
                    assert(rest@ =~= orig.subrange(0, orig.len() as int));
                }
                while rest.len() > 0
                    invariant
                        i <= orig.len(),
                        n == orig.len(),
                        rest@ == orig.subrange(i as int, orig.len() as int),
                        out@.len() == i,
                        forall|v: Value| call_requires(transform, (v,)),
                        forall|j: int| 0 <= j < i ==> call_ensures(transform, (orig[j],), #[trigger] out@[j]),
                    decreases rest@.len(),
                {
                    proof {
                        assert(rest@[0] == orig[i as int]);
                    }
                    let v = rest.remove(0);
                    out.push(transform(v));
                    proof {
                        assert(rest@ =~= orig.subrange(i + 1, orig.len() as int));
                    }
                    i = i + 1;
                }
                Value::Array(out)
            },
            other => other,
        }
    }

    /// An object with each entry transformed (see `Object::map_entries`);
    /// any other value unchanged.
    pub fn map_entries<F: Fn((String, Value)) -> (String, Value)>(self, transform: F) -> (r: Value)
        requires
            forall|e: (String, Value)| call_requires(transform, (e,)),
        ensures
            match self {
                Value::Object(o) => r matches Value::Object(p) && exists|es: Seq<(String, Value)>|
                    #[trigger] entries_mapped(transform, o@, es) && entries_view(p@)
                        == crate::entries::merge(entries_view(es)),
                _ => r == self,
            },
    {
        match self {
            Value::Object(o) => Value::Object(o.map_entries(transform)),
            other => other,
        }
    }

    /// The value directly under a key of an object, or at an index of an
    /// array; `None` for any other value, a missing key or an index that is
    /// not a number below the array's length.
    pub fn get(&self, key: &str) -> (r: Option<&Value>)
        ensures
            found(r) == child(*self, key@),
    {
        match self {
            Value::Object(o) => o.get(key),
            Value::Array(a) => match parse_index_key(key) {
                Some(n) => {
                    if n < a.len() {
                        Some(&a[n])
                    } else {
                        None
                    }
                },
                None => None,
            },
            _ => None,
        }
    }

    /// The value at a pointer. The empty pointer gives the value itself; a
    /// segment that addresses a non-container, a missing key or an index out
    /// of range gives `None`. The result is a function of the value and the
    /// pointer alone.
    pub fn get_path(&self, path: &Pointer) -> (r: Option<&Value>)
        ensures
            found(r) == value_at(*self, pointer_view(path@)),
    {
        let ghost p = pointer_view(path@);
        let mut current: &Value = self;
        let mut i: usize = 0;
        proof {
            assert(p.subrange(0, p.len() as int) =~= p);
        }
        while i < path.len()
            invariant
                i <= path.len(),
                p == pointer_view(path@),
                value_at(*self, p) == value_at(*current, p.subrange(i as int, p.len() as int)),
            decreases path.len() - i,
        {
            let ghost rest = p.subrange(i as int, p.len() as int);
            proof {
                assert(rest[0] == path@[i as int]@);
                assert(rest.drop_first() =~= p.subrange(i + 1, p.len() as int));
            }
            match current.get(path[i].as_str()) {
                Some(next) => {
                    current = next;
                },
                None => {
                    return None;
                },
            }
            i = i + 1;
        }
        proof {
            assert(p.subrange(i as int, p.len() as int) =~= Seq::<Seq<char>>::empty());
        }
        Some(current)
    }
}

/// The name of a value's variant.
pub open spec fn kind_name(v: Value) -> Seq<char> {
    match v {
        Value::Null => "null"@,
        Value::Boolean(_) => "boolean"@,
        Value::I64(_) => "i64"@,
        Value::F64(_) => "f64"@,
        Value::String(_) => "string"@,
        Value::Object(_) => "object"@,
        Value::Array(_) => "array"@,
    }
}

/// The message of setting a key on a value that holds no keys.
pub open spec fn primitive_set_message(v: Value, k: Seq<char>) -> Seq<char> {
    "Cannot set key '"@ + k + "' for primitive value "@ + kind_name(v) + "."@
}

/// The message of setting an array element under a key that is no index.
pub open spec fn non_index_message(k: Seq<char>) -> Seq<char> {
    "Key '"@ + k + "' is not a positive integer and cannot be used to set a value for an array."@
}

/// The message of setting an array element past the array's end.
pub open spec fn out_of_range_message(k: Seq<char>) -> Seq<char> {
    "Cannot set index "@ + k + " because it is out of range for the array."@
}

/// What setting `k` to `new` on `v` gives: the new object or array, or the
/// error that it fails with.
pub open spec fn set_outcome(v: Value, k: Seq<char>, new: Value) -> Result<Value, ErrorView> {
    match v {
        Value::Object(o) => Ok(v),
        Value::Array(a) => match parse_index(k) {
            Some(n) => if n < a@.len() {
                Ok(v)
            } else {
                Err(
                    ErrorView {
                        code: ErrorCode::BadRange,
                        message: out_of_range_message(k),
                        hint: Some("Try setting an index inside the array's bounds."@),
                    },
                )
            },
            None => Err(
                ErrorView {
                    code: ErrorCode::BadRange,
                    message: non_index_message(k),
                    hint: Some("Try using a positive integer like 0 as the key."@),
                },
            ),
        },
        _ => Err(
            ErrorView {
                code: ErrorCode::BadRequest,
                message: primitive_set_message(v, k),
                hint: Some("Try setting a value on an object or an array instead."@),
            },
        ),
    }
}

impl Value {
    /// The name of this value's variant.
    pub fn kind(&self) -> (r: &'static str)
        ensures
            r@ == kind_name(*self),
    {
        match self {
            Value::Null => "null",
            Value::Boolean(_) => "boolean",
            Value::I64(_) => "i64",
            Value::F64(_) => "f64",
            Value::String(_) => "string",
            Value::Object(_) => "object",
            Value::Array(_) => "array",
        }
    }

    /// Sets the value under a key of an object (inserting or replacing it) or
    /// at an index of an array (replacing the element), and returns the
    /// changed value. Fails with `BadRequest` on any other value, and with
    /// `BadRange` on an array when the key is no index below its length.
    pub fn set(self, key: &str, new: Value) -> (r: Result<Value, Error>)
        ensures
            match (set_outcome(self, key@, new), r) {
                (Err(e), Err(f)) => f@ == e,
                (Ok(_), Ok(w)) => match (self, w) {
                    (Value::Object(o), Value::Object(p)) => entries_view(p@) == put(o@, key@, new),
                    (Value::Array(a), Value::Array(b)) => parse_index(key@) matches Some(n)
                        && b@ == a@.update(n as int, new),
                    _ => false,
                },
                _ => false,
            },
    {
        match self {
            Value::Object(mut o) => {
                o.insert(key.to_owned(), new);
                Ok(Value::Object(o))
            },
            Value::Array(mut a) => match parse_index_key(key) {
                Some(n) => {
                    if n < a.len() {
                        a.set(n, new);
                        Ok(Value::Array(a))
                    } else {
                        let message = String::from_str("Cannot set index ").concat(key).concat(
                            " because it is out of range for the array.",
                        );
                        Err(
                            Error::with_hint(
                                ErrorCode::BadRange,
                                message,
                                String::from_str("Try setting an index inside the array's bounds."),
                            ),
                        )
                    }
                },
                None => {
                    let message = String::from_str("Key '").concat(key).concat(
                        "' is not a positive integer and cannot be used to set a value for an array.",
                    );
                    Err(
                        Error::with_hint(
                            ErrorCode::BadRange,
                            message,
                            String::from_str("Try using a positive integer like 0 as the key."),
                        ),
                    )
                },
            },
            _ => {
                let message = String::from_str("Cannot set key '").concat(key).concat(
                    "' for primitive value ",
                ).concat(self.kind()).concat(".");
                Err(
                    Error::with_hint(
                        ErrorCode::BadRequest,
                        message,
                        String::from_str("Try setting a value on an object or an array instead."),
                    ),
                )
            },
        }
    }
}

/// Whether a bit pattern is a NaN.
pub open spec fn is_nan(b: u64) -> bool {
    (b / 0x10_0000_0000_0000) % 0x800 == 0x7ff && b % 0x10_0000_0000_0000 != 0
}

/// Whether a bit pattern is a zero of either sign.
pub open spec fn is_zero(b: u64) -> bool {
    b % 0x8000_0000_0000_0000 == 0
}

/// IEEE-754 equality of two binary64 bit patterns: NaN equals nothing and
/// the two zeros are equal.
pub open spec fn float_eq(x: u64, y: u64) -> bool {
    !is_nan(x) && !is_nan(y) && (x == y || (is_zero(x) && is_zero(y)))
}

/// Equality of values: of the same variant with equal contents. Objects are
/// equal when they hold the same keys with equal values, in any order.
pub open spec fn value_eq(a: Value, b: Value) -> bool
    decreases a via value_decreases
{
    match a {
        Value::Null => b is Null,
        Value::Boolean(x) => b matches Value::Boolean(y) && x == y,
        Value::I64(x) => b matches Value::I64(y) && x == y,
        Value::F64(x) => b matches Value::F64(y) && float_eq(x, y),
        Value::String(x) => b matches Value::String(y) && x@ == y@,
        Value::Object(x) => match b {
            Value::Object(y) => x@.len() == y@.len() && forall|i: int|
                0 <= i < x@.len() ==> match lookup(y@, (#[trigger] x@[i]).0@) {
                    Some(w) => value_eq(x@[i].1, w),
                    None => false,
                },
            _ => false,
        },
        Value::Array(x) => match b {
            Value::Array(y) => x@.len() == y@.len() && forall|i: int|
                0 <= i < x@.len() ==> value_eq(x@[i], y@[i]),
            _ => false,
        },
    }
}

#[via_fn]
proof fn value_decreases(a: Value, b: Value) {
    match a {
        Value::Object(x) => {
            assert forall|i: int| 0 <= i < x@.len() implies decreases_to!(a => #[trigger] x@[i].1) by {
                lemma_object_decreases(a, i);
            }
        },
        Value::Array(x) => {
            assert forall|i: int| 0 <= i < x@.len() implies decreases_to!(a => #[trigger] x@[i]) by {
                lemma_array_decreases(a, i);
            }
        },
        _ => {},
    }
}

#[via_fn]
proof fn copy_decreases(a: Value, b: Value) {
    match a {
        Value::Object(x) => {
            assert forall|i: int| 0 <= i < x@.len() implies decreases_to!(a => #[trigger] x@[i].1) by {
                lemma_object_decreases(a, i);
            }
        },
        Value::Array(x) => {
            assert forall|i: int| 0 <= i < x@.len() implies decreases_to!(a => #[trigger] x@[i]) by {
                lemma_array_decreases(a, i);
            }
        },
        _ => {},
    }
}

proof fn lemma_array_decreases(v: Value, i: int)
    requires
        v is Array,
        0 <= i < v->Array_0@.len(),
    ensures
        decreases_to!(v => v->Array_0@[i]),
{
    let a = v->Array_0;
    assert(decreases_to!(v => a));
    assert(decreases_to!(a => a@));
    assert(decreases_to!(a@ => a@[i]));
}

/// An object value is larger than the value of each of its entries.
pub proof fn lemma_entry_decreases(v: Value, i: int)
    requires
        v is Object,
        0 <= i < v->Object_0@.len(),
    ensures
        decreases_to!(v => v->Object_0@[i].1),
{
    lemma_object_decreases(v, i);
}

proof fn lemma_object_decreases(v: Value, i: int)
    requires
        v is Object,
        0 <= i < v->Object_0.entries@.len(),
    ensures
        decreases_to!(v => v->Object_0.entries@[i].1),
{
    let o = v->Object_0;
    assert(decreases_to!(v => o));
    assert(decreases_to!(o => o.entries));
    assert(decreases_to!(o.entries => o.entries@));
    assert(decreases_to!(o.entries@ => o.entries@[i]));
    assert(decreases_to!(o.entries@[i] => o.entries@[i].1));
}

fn float_equal(x: u64, y: u64) -> (r: bool)
    ensures
        r == float_eq(x, y),
{
    let x_nan = (x / 0x10_0000_0000_0000) % 0x800 == 0x7ff && x % 0x10_0000_0000_0000 != 0;
    let y_nan = (y / 0x10_0000_0000_0000) % 0x800 == 0x7ff && y % 0x10_0000_0000_0000 != 0;
    !x_nan && !y_nan && (x == y || (x % 0x8000_0000_0000_0000 == 0 && y % 0x8000_0000_0000_0000
        == 0))
}

impl Value {
    /// Whether two values are equal (see `value_eq`).
#[verifier::rlimit(50)]
    pub fn equals(&self, other: &Value) -> (r: bool)
        ensures
            r == value_eq(*self, *other),
        decreases self,
    {
        match self {
            Value::Null => match other {
                Value::Null => true,
                _ => false,
            },
            Value::Boolean(x) => match other {
                Value::Boolean(y) => *x == *y,
                _ => false,
            },
            Value::I64(x) => match other {
                Value::I64(y) => *x == *y,
                _ => false,
            },
            Value::F64(x) => match other {
                Value::F64(y) => float_equal(*x, *y),
                _ => false,
            },
            Value::String(x) => match other {
                Value::String(y) => *x == *y,
                _ => false,
            },
            Value::Object(x) => match other {
                Value::Object(y) => {
                    if x.entries.len() != y.entries.len() {
                        return false;
                    }
                    let mut i: usize = 0;
                    while i < x.entries.len()
                        invariant
                            i <= x.entries@.len(),
                            x.entries@.len() == y.entries@.len(),
                            *self == Value::Object(*x),
                            *other == Value::Object(*y),
                            forall|j: int|
                                0 <= j < i ==> match lookup(y.entries@, (#[trigger] x.entries@[j]).0@) {
                                    Some(w) => value_eq(x.entries@[j].1, w),
                                    None => false,
                                },
                        decreases x.entries@.len() - i,
                    {
                        proof {
                            lemma_find_key(y.entries@, x.entries@[i as int].0@);
                            lemma_object_decreases(*self, i as int);
                        }
                        let same = match y.get(x.entries[i].0.as_str()) {
                            Some(w) => x.entries[i].1.equals(w),
                            None => false,
                        };
                        if !same {
                            proof {
                                let e = x.entries@[i as int];
                                assert(!match lookup(y.entries@, e.0@) {
                                    Some(w) => value_eq(e.1, w),
                                    None => false,
                                });
                                assert(!value_eq(*self, *other));
                            }
                            return false;
                        }
                        i = i + 1;
                    }
                    true
                },
                _ => false,
            },
            Value::Array(x) => match other {
                Value::Array(y) => {
                    if x.len() != y.len() {
                        return false;
                    }
                    let mut i: usize = 0;
                    while i < x.len()
                        invariant
                            i <= x@.len(),
                            x@.len() == y@.len(),
                            *self == Value::Array(*x),
                            *other == Value::Array(*y),
                            forall|j: int| 0 <= j < i ==> value_eq(x@[j], y@[j]),
                        decreases x@.len() - i,
                    {
                        proof {
                            lemma_array_decreases(*self, i as int);
                        }
                        if !x[i].equals(&y[i]) {
                            proof {
                                assert(!value_eq(x@[i as int], y@[i as int]));
                                assert(!value_eq(*self, *other));
                            }
                            return false;
                        }
                        i = i + 1;
                    }
                    true
                },
                _ => false,
            },
        }
    }
}

/// Whether `b` is a copy of `a`: the same variant with the same contents,
/// entry for entry and element for element.
pub open spec fn same_value(a: Value, b: Value) -> bool
    decreases a via copy_decreases
{
    match a {
        Value::Object(x) => match b {
            Value::Object(y) => x@.len() == y@.len() && forall|i: int|
                0 <= i < x@.len() ==> (#[trigger] x@[i]).0 == y@[i].0 && same_value(x@[i].1, y@[i].1),
            _ => false,
        },
        Value::Array(x) => match b {
            Value::Array(y) => x@.len() == y@.len() && forall|i: int|
                0 <= i < x@.len() ==> same_value(#[trigger] x@[i], y@[i]),
            _ => false,
        },
        _ => a == b,
    }
}

impl Value {
    /// A copy of the value (see `same_value`).
#[verifier::rlimit(50)]
    pub fn duplicate(&self) -> (r: Value)
        ensures
            same_value(*self, r),
        decreases self,
    {
        match self {
            Value::Null => Value::Null,
            Value::Boolean(b) => Value::Boolean(*b),
            Value::I64(n) => Value::I64(*n),
            Value::F64(n) => Value::F64(*n),
            Value::String(s) => Value::String(s.clone()),
            Value::Object(x) => {
                let mut entries: Vec<(String, Value)> = Vec::new();
                let mut i: usize = 0;
                while i < x.entries.len()
                    invariant
                        i <= x.entries@.len(),
                        *self == Value::Object(*x),
                        entries@.len() == i,
                        forall|j: int|
                            0 <= j < i ==> (#[trigger] x.entries@[j]).0 == entries@[j].0
                                && same_value(x.entries@[j].1, entries@[j].1),
                    decreases x.entries@.len() - i,
                {
                    proof {
                        lemma_object_decreases(*self, i as int);
                    }
                    let e = &x.entries[i];
                    entries.push((e.0.clone(), e.1.duplicate()));
                    i = i + 1;
                }
                let r = Value::Object(Object { entries });
                proof {
                    let o = (*self)->Object_0;
                    assert(decreases_to!(*self => o));
                    assert(decreases_to!(o => o.entries));
                    assert(decreases_to!(o.entries => o.entries@));
                    assert forall|j: int| 0 <= j < o.entries@.len() implies decreases_to!(
                        *self => (#[trigger] o.entries@[j]).1) by {
                        assert(decreases_to!(o.entries@ => o.entries@[j]));
                        assert(decreases_to!(o.entries@[j] => o.entries@[j].1));
                    }
                }
                r
            },
            Value::Array(x) => {
                let mut items: Vec<Value> = Vec::new();
                let mut i: usize = 0;
                while i < x.len()
                    invariant
                        i <= x@.len(),
                        *self == Value::Array(*x),
                        items@.len() == i,
                        forall|j: int| 0 <= j < i ==> same_value(#[trigger] x@[j], items@[j]),
                    decreases x@.len() - i,
                {
                    proof {
                        lemma_array_decreases(*self, i as int);
                    }
                    items.push(x[i].duplicate());
                    i = i + 1;
                }
                let r = Value::Array(items);
                proof {
                    let a = (*self)->Array_0;
                    assert(decreases_to!(*self => a));
                    assert(decreases_to!(a => a@));
                    assert forall|j: int| 0 <= j < a@.len() implies decreases_to!(
                        *self => #[trigger] a@[j]) by {
                        assert(decreases_to!(a@ => a@[j]));
                    }
                }
                r
            },
        }
    }
}

impl PartialEq for Value {
    fn eq(&self, other: &Value) -> (r: bool)
        ensures
            r == value_eq(*self, *other),
    {
        self.equals(other)
    }
}

impl vstd::std_specs::cmp::PartialEqSpecImpl for Value {
    open spec fn obeys_eq_spec() -> bool {
        true
    }

    open spec fn eq_spec(&self, other: &Value) -> bool {
        value_eq(*self, *other)
    }
}

/// The order of two integers.
pub open spec fn int_cmp(x: int, y: int) -> Ordering {
    if x < y {
        Ordering::Less
    } else if x > y {
        Ordering::Greater
    } else {
        Ordering::Equal
    }
}

/// The position of a non-NaN binary64 bit pattern on the number line,
/// scaled: both zeros are at 0 and the order of positions is the order of
/// the numbers.
pub open spec fn float_key(b: u64) -> int {
    if b >= 0x8000_0000_0000_0000 {
        -((b % 0x8000_0000_0000_0000) as int)
    } else {
        b as int
    }
}

/// The lexicographic order of two strings, character by character.
pub open spec fn chars_cmp(a: Seq<char>, b: Seq<char>) -> Ordering
    decreases a.len(),
{
    if a.len() == 0 {
        if b.len() == 0 {
            Ordering::Equal
        } else {
            Ordering::Less
        }
    } else if b.len() == 0 {
        Ordering::Greater
    } else if (a[0] as u32) < (b[0] as u32) {
        Ordering::Less
    } else if (a[0] as u32) > (b[0] as u32) {
        Ordering::Greater
    } else {
        chars_cmp(a.drop_first(), b.drop_first())
    }
}

/// The partial order of values: only two values of the same variant among
/// null, boolean, integer, float and string are ordered; a NaN is ordered
/// with nothing.
pub open spec fn value_cmp(a: Value, b: Value) -> Option<Ordering> {
    match (a, b) {
        (Value::Null, Value::Null) => Some(Ordering::Equal),
        (Value::Boolean(x), Value::Boolean(y)) => Some(
            int_cmp(
                if x {
                    1
                } else {
                    0
                },
                if y {
                    1
                } else {
                    0
                },
            ),
        ),
        (Value::I64(x), Value::I64(y)) => Some(int_cmp(x as int, y as int)),
        (Value::F64(x), Value::F64(y)) => if is_nan(x) || is_nan(y) {
            None
        } else {
            Some(int_cmp(float_key(x), float_key(y)))
        },
        (Value::String(x), Value::String(y)) => Some(chars_cmp(x@, y@)),
        _ => None,
    }
}

fn compare_ints(x: i64, y: i64) -> (r: Ordering)
    ensures
        r == int_cmp(x as int, y as int),
{
    if x < y {
        Ordering::Less
    } else if x > y {
        Ordering::Greater
    } else {
        Ordering::Equal
    }
}

fn compare_floats(x: u64, y: u64) -> (r: Option<Ordering>)
    ensures
        r == (if is_nan(x) || is_nan(y) {
            None
        } else {
            Some(int_cmp(float_key(x), float_key(y)))
        }),
{
    let x_nan = (x / 0x10_0000_0000_0000) % 0x800 == 0x7ff && x % 0x10_0000_0000_0000 != 0;
    let y_nan = (y / 0x10_0000_0000_0000) % 0x800 == 0x7ff && y % 0x10_0000_0000_0000 != 0;
    if x_nan || y_nan {
        return None;
    }
    let x_neg = x >= 0x8000_0000_0000_0000;
    let y_neg = y >= 0x8000_0000_0000_0000;
    let x_mag = x % 0x8000_0000_0000_0000;
    let y_mag = y % 0x8000_0000_0000_0000;
    let r = if x_neg && y_neg {
        if x_mag > y_mag {
            Ordering::Less
        } else if x_mag < y_mag {
            Ordering::Greater
        } else {
            Ordering::Equal
        }
    } else if !x_neg && !y_neg {
        if x_mag < y_mag {
            Ordering::Less
        } else if x_mag > y_mag {
            Ordering::Greater
        } else {
            Ordering::Equal
        }
    } else if x_neg {
        if x_mag == 0 && y_mag == 0 {
            Ordering::Equal
        } else {
            Ordering::Less
        }
    } else {
        if x_mag == 0 && y_mag == 0 {
            Ordering::Equal
        } else {
            Ordering::Greater
        }
    };
    Some(r)
}

#[verifier::rlimit(50)]
fn compare_strings(a: &str, b: &str) -> (r: Ordering)
    ensures
        r == chars_cmp(a@, b@),
{
    let la = a.unicode_len();
    let lb = b.unicode_len();
    let mut i: usize = 0;
    proof {
        assert(a@.subrange(0, la as int) =~= a@);
        assert(b@.subrange(0, lb as int) =~= b@);
    }
    while i < la && i < lb
        invariant
            i <= la,
            i <= lb,
            la == a@.len(),
            lb == b@.len(),
            chars_cmp(a@, b@) == chars_cmp(
                a@.subrange(i as int, la as int),
                b@.subrange(i as int, lb as int),
            ),
        decreases la - i,
    {
        let x = a.get_char(i);
        let y = b.get_char(i);
        let ghost sa = a@.subrange(i as int, la as int);
        let ghost sb = b@.subrange(i as int, lb as int);
        proof {
            assert(sa[0] == x);
            assert(sb[0] == y);
            assert(sa.drop_first() =~= a@.subrange(i + 1, la as int));
            assert(sb.drop_first() =~= b@.subrange(i + 1, lb as int));
        }
        if (x as u32) < (y as u32) {
            return Ordering::Less;
        } else if (x as u32) > (y as u32) {
            return Ordering::Greater;
        }
        i = i + 1;
    }
    if i < la {
        Ordering::Greater
    } else if i < lb {
        Ordering::Less
    } else {
        Ordering::Equal
    }
}

/// The character order is antisymmetric.
pub proof fn lemma_chars_cmp_antisymmetric(a: Seq<char>, b: Seq<char>)
    ensures
        chars_cmp(a, b) == Ordering::Less <==> chars_cmp(b, a) == Ordering::Greater,
        chars_cmp(a, b) == Ordering::Equal <==> chars_cmp(b, a) == Ordering::Equal,
    decreases a.len(),
{
    if a.len() > 0 && b.len() > 0 {
        lemma_chars_cmp_antisymmetric(a.drop_first(), b.drop_first());
    }
}

/// The value order is antisymmetric: swapping two values reverses their
/// order, and an unordered pair stays unordered.
pub proof fn lemma_value_cmp_antisymmetric(a: Value, b: Value)
    ensures
        value_cmp(a, b) == Some(Ordering::Less) <==> value_cmp(b, a) == Some(Ordering::Greater),
        value_cmp(a, b) == Some(Ordering::Equal) <==> value_cmp(b, a) == Some(Ordering::Equal),
        value_cmp(a, b) is None <==> value_cmp(b, a) is None,
{
    if let (Value::String(x), Value::String(y)) = (a, b) {
        lemma_chars_cmp_antisymmetric(x@, y@);
    }
}

impl Value {
    /// The order of two values (see `value_cmp`).
    pub fn compare(&self, other: &Value) -> (r: Option<Ordering>)
        ensures
            r == value_cmp(*self, *other),
    {
        match (self, other) {
            (Value::Null, Value::Null) => Some(Ordering::Equal),
            (Value::Boolean(x), Value::Boolean(y)) => Some(
                compare_ints(
                    if *x {
                        1
                    } else {
                        0
                    },
                    if *y {
                        1
                    } else {
                        0
                    },
                ),
            ),
            (Value::I64(x), Value::I64(y)) => Some(compare_ints(*x, *y)),
            (Value::F64(x), Value::F64(y)) => compare_floats(*x, *y),
            (Value::String(x), Value::String(y)) => Some(compare_strings(x.as_str(), y.as_str())),
            _ => None,
        }
    }
}

impl PartialOrd for Value {
    fn partial_cmp(&self, other: &Value) -> (r: Option<Ordering>)
        ensures
            r == value_cmp(*self, *other),
    {
        self.compare(other)
    }
}

impl vstd::std_specs::cmp::PartialOrdSpecImpl for Value {
    open spec fn obeys_partial_cmp_spec() -> bool {
        true
    }

    open spec fn partial_cmp_spec(&self, other: &Value) -> Option<Ordering> {
        value_cmp(*self, *other)
    }
}

} // verus!
