//! Selections, conditions, sort rules and ranges: what a read asks for.

use std::cmp::Ordering;

use vstd::prelude::*;

use crate::entries::lookup;
use crate::value::{child, lemma_value_cmp_antisymmetric, value_at, value_cmp, value_eq, pointer_view, Pointer, Value};

verus! {

broadcast use vstd::std_specs::vec::group_vec_axioms;

/// Which part of a value is requested: all of it, or only the named keys,
/// each with its own selection.
#[derive(Debug)]
pub enum Query {
    /// The whole value.
    All,
    /// Only these keys, in order, each scoped by its own selection.
    Keys(Vec<(String, Query)>),
}

/// Whether `q` is the chain of single keys that `p` writes, ending in `All`.
pub open spec fn is_pointer_query(q: Query, p: Seq<Seq<char>>) -> bool
    decreases p.len(),
{
    if p.len() == 0 {
        q is All
    } else {
        match q {
            Query::Keys(es) => es@.len() == 1 && es@[0].0@ == p[0] && is_pointer_query(
                es@[0].1,
                p.drop_first(),
            ),
            Query::All => false,
        }
    }
}

impl Query {
    /// The selection of exactly the point that a pointer addresses: `All` for
    /// the empty pointer, else one key per segment, nested from the first
    /// segment to the last.
    pub fn from_pointer(pointer: &Pointer) -> (r: Query)
        ensures
            is_pointer_query(r, pointer_view(pointer@)),
    {
        let ghost p = pointer_view(pointer@);
        let mut q = Query::All;
        let mut i: usize = pointer.len();
        proof {
            assert(p.subrange(i as int, p.len() as int) =~= Seq::<Seq<char>>::empty());
        }
        while i > 0
            invariant
                i <= pointer.len(),
                p == pointer_view(pointer@),
                is_pointer_query(q, p.subrange(i as int, p.len() as int)),
            decreases i,
        {
            let key = pointer[i - 1].clone();
            let ghost tail = p.subrange(i as int, p.len() as int);
            let mut es: Vec<(String, Query)> = Vec::new();
            es.push((key, q));
            q = Query::Keys(es);
            i = i - 1;
            proof {
                let s = p.subrange(i as int, p.len() as int);
                assert(s.drop_first() =~= tail);
                assert(s[0] == pointer@[i as int]@);
            }
        }
        proof {
            assert(p.subrange(0, p.len() as int) =~= p);
        }
        q
    }
}

/// A predicate over values, used to narrow which records a read returns.
#[derive(Debug)]
pub enum Condition {
    /// Always holds.
    True,
    /// Never holds.
    False,
    /// Holds when the inner condition does not.
    Not(Box<Condition>),
    /// Holds when every inner condition holds.
    And(Vec<Condition>),
    /// Holds when some inner condition holds.
    Or(Vec<Condition>),
    /// Holds when the value has every key, and the condition under each key
    /// holds of the value there.
    Keys(Vec<(String, Condition)>),
    /// Holds of a value equal to this one.
    Equal(Value),
}

/// Whether a condition holds of a value.
pub open spec fn holds(c: Condition, v: Value) -> bool
    decreases c,
{
    match c {
        Condition::True => true,
        Condition::False => false,
        Condition::Not(inner) => !holds(*inner, v),
        Condition::And(cs) => forall|i: int| 0 <= i < cs@.len() ==> holds(#[trigger] cs@[i], v),
        Condition::Or(cs) => exists|i: int| 0 <= i < cs@.len() && holds(#[trigger] cs@[i], v),
        Condition::Keys(es) => forall|i: int|
            0 <= i < es@.len() ==> match child(v, (#[trigger] es@[i]).0@) {
                Some(w) => holds(es@[i].1, w),
                None => false,
            },
        Condition::Equal(x) => value_eq(v, x),
    }
}

proof fn lemma_list_decreases(c: Condition, cs: Vec<Condition>, i: int)
    requires
        c == Condition::And(cs) || c == Condition::Or(cs),
        0 <= i < cs@.len(),
    ensures
        decreases_to!(c => cs@[i]),
{
    if c is And {
        assert(decreases_to!(c => c->And_0));
    } else {
        assert(decreases_to!(c => c->Or_0));
    }
    assert(decreases_to!(cs => cs@));
    assert(decreases_to!(cs@ => cs@[i]));
}

proof fn lemma_keys_decreases(c: Condition, es: Vec<(String, Condition)>, i: int)
    requires
        c == Condition::Keys(es),
        0 <= i < es@.len(),
    ensures
        decreases_to!(c => es@[i].1),
{
    assert(decreases_to!(c => c->Keys_0));
    assert(decreases_to!(es => es@));
    assert(decreases_to!(es@ => es@[i]));
    assert(decreases_to!(es@[i] => es@[i].1));
}

proof fn lemma_and_fails(cs: Vec<Condition>, v: Value, i: int)
    requires
        0 <= i < cs@.len(),
        !holds(cs@[i], v),
    ensures
        !holds(Condition::And(cs), v),
{
    let c = Condition::And(cs);
    assert(decreases_to!(c => c->And_0));
    assert(decreases_to!(cs => cs@));
    assert(decreases_to!(cs@ => cs@[i]));
}

proof fn lemma_and_holds(cs: Vec<Condition>, v: Value)
    requires
        forall|j: int| 0 <= j < cs@.len() ==> holds(#[trigger] cs@[j], v),
    ensures
        holds(Condition::And(cs), v),
{
}

proof fn lemma_or_holds(cs: Vec<Condition>, v: Value, i: int)
    requires
        0 <= i < cs@.len(),
        holds(cs@[i], v),
    ensures
        holds(Condition::Or(cs), v),
{
    let c = Condition::Or(cs);
    assert(decreases_to!(c => c->Or_0));
    assert(decreases_to!(cs => cs@));
    assert(decreases_to!(cs@ => cs@[i]));
}

proof fn lemma_or_fails(cs: Vec<Condition>, v: Value)
    requires
        forall|j: int| 0 <= j < cs@.len() ==> !holds(#[trigger] cs@[j], v),
    ensures
        !holds(Condition::Or(cs), v),
{
}

impl Condition {
    /// Whether the condition holds of a value.
#[verifier::rlimit(50)]
    pub fn is_true(&self, value: &Value) -> (r: bool)
        ensures
            r == holds(*self, *value),
        decreases self,
    {
        match self {
            Condition::True => true,
            Condition::False => false,
            Condition::Not(inner) => !inner.is_true(value),
            Condition::And(cs) => {
                let mut i: usize = 0;
                while i < cs.len()
                    invariant
                        i <= cs@.len(),
                        *self == Condition::And(*cs),
                        forall|j: int| 0 <= j < i ==> holds(#[trigger] cs@[j], *value),
                    decreases cs@.len() - i,
                {
                    proof {
                        lemma_list_decreases(*self, *cs, i as int);
                    }
                    if !cs[i].is_true(value) {
                        proof {
                            lemma_and_fails(*cs, *value, i as int);
                        }
                        return false;
                    }
                    i = i + 1;
                }
                proof {
                    lemma_and_holds(*cs, *value);
                }
                true
            },
            Condition::Or(cs) => {
                let mut i: usize = 0;
                while i < cs.len()
                    invariant
                        i <= cs@.len(),
                        *self == Condition::Or(*cs),
                        forall|j: int| 0 <= j < i ==> !holds(#[trigger] cs@[j], *value),
                    decreases cs@.len() - i,
                {
                    proof {
                        lemma_list_decreases(*self, *cs, i as int);
                    }
                    if cs[i].is_true(value) {
                        proof {
                            lemma_or_holds(*cs, *value, i as int);
                        }
                        return true;
                    }
                    i = i + 1;
                }
                proof {
                    lemma_or_fails(*cs, *value);
                }
                false
            },
            Condition::Keys(es) => {
                let mut i: usize = 0;
                while i < es.len()
                    invariant
                        i <= es@.len(),
                        *self == Condition::Keys(*es),
                        forall|j: int|
                            0 <= j < i ==> match child(*value, (#[trigger] es@[j]).0@) {
                                Some(w) => holds(es@[j].1, w),
                                None => false,
                            },
                    decreases es@.len() - i,
                {
                    proof {
                        lemma_keys_decreases(*self, *es, i as int);
                    }
                    let ok = match value.get(es[i].0.as_str()) {
                        Some(w) => es[i].1.is_true(w),
                        None => false,
                    };
                    if !ok {
                        proof {
                            let e = es@[i as int];
                            assert(!match child(*value, e.0@) {
                                Some(w) => holds(e.1, w),
                                None => false,
                            });
                        }
                        return false;
                    }
                    i = i + 1;
                }
                true
            },
            Condition::Equal(x) => value.equals(x),
        }
    }

    /// Whether the condition fails for a value.
    pub fn is_false(&self, value: &Value) -> (r: bool)
        ensures
            r == !holds(*self, *value),
    {
        !self.is_true(value)
    }
}

impl Default for Condition {
    fn default() -> (r: Condition)
        ensures
            r == Condition::True,
    {
        Condition::True
    }
}

/// The direction in which a property is ordered.
#[derive(PartialEq, Eq, Structural, Clone, Copy, Debug)]
pub enum Direction {
    Ascending,
    Descending,
}

/// What a sort rule holds: the property it orders by and whether the order
/// is ascending.
pub struct SortView {
    pub property: Seq<Seq<char>>,
    pub ascending: bool,
}

/// One rule of an ordering: a property, addressed by a pointer, and a
/// direction.
#[derive(Debug)]
pub struct Sort {
    property: Vec<String>,
    direction: Direction,
}

impl View for Sort {
    type V = SortView;

    closed spec fn view(&self) -> SortView {
        SortView {
            property: pointer_view(self.property@),
            ascending: self.direction == Direction::Ascending,
        }
    }
}

/// The views of some sort rules.
pub open spec fn sorts_view(rules: Seq<Sort>) -> Seq<SortView> {
    rules.map_values(|s: Sort| s@)
}

/// The reverse of an order.
pub open spec fn reverse(o: Ordering) -> Ordering {
    match o {
        Ordering::Less => Ordering::Greater,
        Ordering::Greater => Ordering::Less,
        Ordering::Equal => Ordering::Equal,
    }
}

/// The order of two optional values: a missing value comes first.
pub open spec fn opt_cmp(a: Option<Value>, b: Option<Value>) -> Option<Ordering> {
    match (a, b) {
        (None, None) => Some(Ordering::Equal),
        (None, Some(_)) => Some(Ordering::Less),
        (Some(_), None) => Some(Ordering::Greater),
        (Some(x), Some(y)) => value_cmp(x, y),
    }
}

/// The order that one rule gives two values: that of the values at its
/// property, reversed for a descending rule; `None` where they are unordered.
pub open spec fn rule_cmp(s: SortView, a: Value, b: Value) -> Option<Ordering> {
    match opt_cmp(value_at(a, s.property), value_at(b, s.property)) {
        Some(o) => Some(
            if s.ascending {
                o
            } else {
                reverse(o)
            },
        ),
        None => None,
    }
}

/// The order that a sequence of rules gives two values: that of the first
/// rule that tells them apart; a tie or an unordered pair falls through to
/// the next rule, and `Equal` when no rule decides.
pub open spec fn rules_cmp(rules: Seq<SortView>, a: Value, b: Value) -> Ordering
    decreases rules.len(),
{
    if rules.len() == 0 {
        Ordering::Equal
    } else {
        match rule_cmp(rules[0], a, b) {
            Some(Ordering::Less) => Ordering::Less,
            Some(Ordering::Greater) => Ordering::Greater,
            _ => rules_cmp(rules.drop_first(), a, b),
        }
    }
}

/// The order of a sequence of rules is antisymmetric: if it puts `a` after
/// `b`, it puts `b` before `a`.
pub proof fn lemma_rules_cmp_antisymmetric(rules: Seq<SortView>, a: Value, b: Value)
    ensures
        rules_cmp(rules, a, b) == Ordering::Greater <==> rules_cmp(rules, b, a) == Ordering::Less,
    decreases rules.len(),
{
    if rules.len() > 0 {
        let s = rules[0];
        let (x, y) = (value_at(a, s.property), value_at(b, s.property));
        if let (Some(u), Some(w)) = (x, y) {
            lemma_value_cmp_antisymmetric(u, w);
        }
        lemma_rules_cmp_antisymmetric(rules.drop_first(), a, b);
    }
}

impl Sort {
    /// A rule ordering by the property at `path`, ascending or descending.
    pub fn new(path: Vec<String>, ascending: bool) -> (r: Sort)
        ensures
            r@ == (SortView { property: pointer_view(path@), ascending }),
    {
        Sort {
            property: path,
            direction: if ascending {
                Direction::Ascending
            } else {
                Direction::Descending
            },
        }
    }

    /// The pointer to the property this rule orders by.
    pub fn path(&self) -> (r: Vec<&str>)
        ensures
            r@.len() == self@.property.len(),
            forall|i: int| 0 <= i < r@.len() ==> (#[trigger] r@[i])@ == self@.property[i],
    {
        let mut r: Vec<&str> = Vec::new();
        let mut i: usize = 0;
        while i < self.property.len()
            invariant
                i <= self.property@.len(),
                r@.len() == i,
                forall|j: int| 0 <= j < i ==> (#[trigger] r@[j])@ == self.property@[j]@,
            decreases self.property@.len() - i,
        {
            r.push(self.property[i].as_str());
            i = i + 1;
        }
        r
    }

    /// The pointer to the property this rule orders by, as owned keys.
    pub fn pointer(&self) -> (r: &Pointer)
        ensures
            pointer_view(r@) == self@.property,
    {
        &self.property
    }

    /// Whether the rule orders ascending.
    pub fn is_ascending(&self) -> (r: bool)
        ensures
            r == self@.ascending,
    {
        match self.direction {
            Direction::Ascending => true,
            Direction::Descending => false,
        }
    }

    /// Whether the rule orders descending.
    pub fn is_descending(&self) -> (r: bool)
        ensures
            r == !self@.ascending,
    {
        match self.direction {
            Direction::Ascending => false,
            Direction::Descending => true,
        }
    }

    /// The order this rule gives two values (see `rule_cmp`).
    pub fn partial_cmp(&self, a: &Value, b: &Value) -> (r: Option<Ordering>)
        ensures
            r == rule_cmp(self@, *a, *b),
    {
        let o = match (a.get_path(&self.property), b.get_path(&self.property)) {
            (None, None) => Some(Ordering::Equal),
            (None, Some(_)) => Some(Ordering::Less),
            (Some(_), None) => Some(Ordering::Greater),
            (Some(x), Some(y)) => x.compare(y),
        };
        match o {
            Some(ord) => {
                if self.is_descending() {
                    Some(
                        match ord {
                            Ordering::Less => Ordering::Greater,
                            Ordering::Greater => Ordering::Less,
                            Ordering::Equal => Ordering::Equal,
                        },
                    )
                } else {
                    Some(ord)
                }
            },
            None => None,
        }
    }
}

/// The order that a sequence of rules gives two values (see `rules_cmp`).
pub fn compare_by_rules(rules: &Vec<Sort>, a: &Value, b: &Value) -> (r: Ordering)
    ensures
        r == rules_cmp(sorts_view(rules@), *a, *b),
{
    let mut i: usize = 0;
    proof {
        assert(sorts_view(rules@).subrange(0, rules@.len() as int) =~= sorts_view(rules@));
    }
    while i < rules.len()
        invariant
            i <= rules@.len(),
            rules_cmp(sorts_view(rules@), *a, *b) == rules_cmp(
                sorts_view(rules@).subrange(i as int, rules@.len() as int),
                *a,
                *b,
            ),
        decreases rules@.len() - i,
    {
        let ghost rest = sorts_view(rules@).subrange(i as int, rules@.len() as int);
        proof {
            assert(rest[0] == rules@[i as int]@);
            assert(rest.drop_first() =~= sorts_view(rules@).subrange(i + 1, rules@.len() as int));
        }
        match rules[i].partial_cmp(a, b) {
            Some(Ordering::Less) => {
                return Ordering::Less;
            },
            Some(Ordering::Greater) => {
                return Ordering::Greater;
            },
            _ => {},
        }
        i = i + 1;
    }
    Ordering::Equal
}

/// A window over a sequence: how many items to skip, and at most how many
/// to keep after them. Either bound may be absent.
#[derive(Debug)]
pub struct Range {
    limit: Option<usize>,
    offset: Option<usize>,
}

/// What a range holds: its offset and its limit.
pub struct RangeView {
    pub offset: Option<usize>,
    pub limit: Option<usize>,
}

impl View for Range {
    type V = RangeView;

    closed spec fn view(&self) -> RangeView {
        RangeView { offset: self.offset, limit: self.limit }
    }
}

/// The first index of the window over a sequence of length `n`.
pub open spec fn window_start(r: RangeView, n: nat) -> nat {
    let s: nat = match r.offset {
        Some(o) => o as nat,
        None => 0,
    };
    if s < n {
        s
    } else {
        n
    }
}

/// The index after the last one of the window over a sequence of length `n`.
pub open spec fn window_end(r: RangeView, n: nat) -> nat {
    let s: nat = match r.offset {
        Some(o) => o as nat,
        None => 0,
    };
    match r.limit {
        Some(l) => if s + l < n {
            (s + l) as nat
        } else {
            n
        },
        None => n,
    }
}

impl Range {
    /// A range from an offset and a limit.
    pub fn new(offset: Option<usize>, limit: Option<usize>) -> (r: Range)
        ensures
            r@ == (RangeView { offset, limit }),
    {
        Range { limit, offset }
    }

    /// The limit of the range.
    pub fn limit(&self) -> (r: Option<usize>)
        ensures
            r == self@.limit,
    {
        self.limit
    }

    /// The offset of the range.
    pub fn offset(&self) -> (r: Option<usize>)
        ensures
            r == self@.offset,
    {
        self.offset
    }

    /// The bounds of the window over a sequence of length `n`: it starts at
    /// `min(offset, n)` and ends at `min(offset + limit, n)`, or at `n` when
    /// there is no limit.
    pub fn bounds(&self, n: usize) -> (r: (usize, usize))
        ensures
            r.0 == window_start(self@, n as nat),
            r.1 == window_end(self@, n as nat),
            r.0 <= r.1 <= n,
    {
        let s: usize = match self.offset {
            Some(o) => o,
            None => 0,
        };
        let start = if s < n {
            s
        } else {
            n
        };
        let end = match self.limit {
            Some(l) => {
                if s <= n && l <= n - s {
                    s + l
                } else {
                    n
                }
            },
            None => n,
        };
        (start, end)
    }

    /// The items in the window, in the order they came in.
    pub fn slice<T>(&self, items: Vec<T>) -> (r: Vec<T>)
        ensures
            r@ == items@.subrange(
                window_start(self@, items@.len()) as int,
                window_end(self@, items@.len()) as int,
            ),
    {
        let (start, end) = self.bounds(items.len());
        let mut r: Vec<T> = Vec::new();
        let mut rest = items;
        let ghost all = rest@;
        rest.truncate(end);
        let mut tail = rest.split_off(start);
        proof {
            assert(tail@ =~= all.subrange(start as int, end as int));
        }
        r.append(&mut tail);
        r
    }
}

impl Default for Range {
    fn default() -> (r: Range)
        ensures
            r@ == (RangeView { offset: None, limit: None }),
    {
        Range::new(None, None)
    }
}

} // verus!
