//! Compilation of conditions, sort rules and selections into the request
//! documents of a document database: a `find` filter, sort and projection.
//! Nested key conditions and selections are flattened into dot-joined
//! property paths, and sibling paths share one document. The module also
//! models how the database evaluates such a filter (`accepts`), and proves
//! that a compiled filter decides as the condition does.

use vstd::prelude::*;

use crate::entries::{entries_view, find_view, lemma_find_view, lemma_find_view_spec, lemma_merge, merge, put_entry};
use crate::query::{holds, sorts_view, Condition, Query, Range, Sort, SortView};
use crate::schema::width;
use crate::value::{child, lemma_entry_decreases, pointer_view, value_at, value_eq};
use crate::value::{Object, Value};

verus! {

broadcast use vstd::std_specs::vec::group_vec_axioms;

/// A path under a prefix: the key itself at the top level (no prefix),
/// else the prefix and the key joined by a dot.
pub open spec fn join_path(prefix: Option<Seq<char>>, k: Seq<char>) -> Seq<char> {
    match prefix {
        Some(p) => p + "."@ + k,
        None => k,
    }
}

/// The characters of an optional prefix.
pub open spec fn prefix_view(prefix: Option<&str>) -> Option<Seq<char>> {
    match prefix {
        Some(p) => Some(p@),
        None => None,
    }
}

/// The number of keys a condition names.
pub open spec fn cond_width(c: Condition) -> int {
    match c {
        Condition::Keys(es) => es@.len() as int,
        _ => 0,
    }
}

/// The leaves of the key conditions of `c` from the `i`-th on, in order:
/// each is the dot-joined path through nested key conditions and the
/// condition found there that names no keys.
pub open spec fn leaves_from(c: Condition, prefix: Option<Seq<char>>, i: int) -> Seq<(Seq<char>, Condition)>
    decreases c, cond_width(c) - i,
{
    match c {
        Condition::Keys(es) => if 0 <= i < es@.len() {
            let path = join_path(prefix, es@[i].0@);
            let sub = es@[i].1;
            let head = match sub {
                Condition::Keys(_) => leaves_from(sub, Some(path), 0),
                _ => seq![(path, sub)],
            };
            head + leaves_from(c, prefix, i + 1)
        } else {
            Seq::empty()
        },
        _ => Seq::empty(),
    }
}

/// The entries of the flat filter document of a key condition: its leaves,
/// a later leaf with the path of an earlier one taking its place.
pub open spec fn filter_leaves(c: Condition) -> Seq<(Seq<char>, Condition)> {
    merge(leaves_from(c, None, 0))
}

/// The value of a document that holds exactly one entry, under `k`.
pub open spec fn single_entry(f: Value, k: Seq<char>) -> Option<Value> {
    match f {
        Value::Object(o) => if o@.len() == 1 && o@[0].0@ == k {
            Some(o@[0].1)
        } else {
            None
        },
        _ => None,
    }
}

/// Whether `f` is the filter document of `c`: `{"$where": "true"}` and
/// `{"$where": "false"}` for the constants, `{"$not": ..}`, `{"$and": [..]}`
/// and `{"$or": [..]}` for the combinators, `{"$eq": v}` for an equality,
/// and for key conditions one flat document from each leaf path to the
/// filter of its leaf.
pub open spec fn filter_of(c: Condition, f: Value) -> bool
    decreases c via filter_of_decreases
{
    match c {
        Condition::True => single_entry(f, "$where"@) matches Some(Value::String(s)) && s@
            == "true"@,
        Condition::False => single_entry(f, "$where"@) matches Some(Value::String(s)) && s@
            == "false"@,
        Condition::Not(inner) => single_entry(f, "$not"@) matches Some(g) && filter_of(*inner, g),
        Condition::And(cs) => single_entry(f, "$and"@) matches Some(Value::Array(gs)) && gs@.len()
            == cs@.len() && forall|i: int| 0 <= i < cs@.len() ==> filter_of(#[trigger] cs@[i], gs@[i]),
        Condition::Or(cs) => single_entry(f, "$or"@) matches Some(Value::Array(gs)) && gs@.len()
            == cs@.len() && forall|i: int| 0 <= i < cs@.len() ==> filter_of(#[trigger] cs@[i], gs@[i]),
        Condition::Keys(_) => match f {
            Value::Object(o) => o@.len() == filter_leaves(c).len() && forall|j: int|
                0 <= j < o@.len() ==> (#[trigger] o@[j]).0@ == filter_leaves(c)[j].0 && filter_of(
                    filter_leaves(c)[j].1,
                    o@[j].1,
                ),
            _ => false,
        },
        Condition::Equal(x) => single_entry(f, "$eq"@) == Some(x),
    }
}

proof fn lemma_leaves_step(c: Condition, es: Vec<(String, Condition)>, prefix: Option<Seq<char>>, i: int)
    requires
        c == Condition::Keys(es),
        0 <= i < es@.len(),
    ensures
        decreases_to!(c => es@[i].1),
        leaves_from(c, prefix, i) == (match es@[i].1 {
            Condition::Keys(_) => leaves_from(es@[i].1, Some(join_path(prefix, es@[i].0@)), 0),
            _ => seq![(join_path(prefix, es@[i].0@), es@[i].1)],
        }) + leaves_from(c, prefix, i + 1),
{
    assert(decreases_to!(c => c->Keys_0));
    assert(decreases_to!(es => es@));
    assert(decreases_to!(es@ => es@[i]));
    assert(decreases_to!(es@[i] => es@[i].1));
}

/// Every leaf of a condition is smaller than it.
proof fn lemma_leaves_smaller(c: Condition, prefix: Option<Seq<char>>, i: int)
    ensures
        forall|j: int|
            0 <= j < leaves_from(c, prefix, i).len() ==> decreases_to!(c => #[trigger] leaves_from(c, prefix, i)[j].1),
    decreases c, cond_width(c) - i,
{
    if let Condition::Keys(es) = c {
        if 0 <= i < es@.len() {
            lemma_leaves_step(c, es, prefix, i);
            let sub = es@[i].1;
            let path = join_path(prefix, es@[i].0@);
            lemma_leaves_smaller(c, prefix, i + 1);
            if let Condition::Keys(_) = sub {
                lemma_leaves_smaller(sub, Some(path), 0);
            }
            let ls = leaves_from(c, prefix, i);
            let head = match sub {
                Condition::Keys(_) => leaves_from(sub, Some(path), 0),
                _ => seq![(path, sub)],
            };
            let tail = leaves_from(c, prefix, i + 1);
            assert forall|j: int| 0 <= j < ls.len() implies decreases_to!(c => #[trigger] ls[j].1) by {
                if j < head.len() {
                    assert(ls[j] == head[j]);
                } else {
                    assert(ls[j] == tail[j - head.len()]);
                }
            }
        }
    }
}

#[via_fn]
proof fn filter_of_decreases(c: Condition, f: Value) {
    match c {
        Condition::And(cs) => {
            assert(decreases_to!(c => c->And_0));
            assert(decreases_to!(cs => cs@));
            assert forall|i: int| 0 <= i < cs@.len() implies decreases_to!(c => #[trigger] cs@[i]) by {
                assert(decreases_to!(cs@ => cs@[i]));
            }
        },
        Condition::Or(cs) => {
            assert(decreases_to!(c => c->Or_0));
            assert(decreases_to!(cs => cs@));
            assert forall|i: int| 0 <= i < cs@.len() implies decreases_to!(c => #[trigger] cs@[i]) by {
                assert(decreases_to!(cs@ => cs@[i]));
            }
        },
        Condition::Keys(_) => {
            let ls = leaves_from(c, None, 0);
            lemma_leaves_smaller(c, None, 0);
            lemma_merge(ls);
            let m = merge(ls);
            assert forall|j: int| 0 <= j < m.len() implies decreases_to!(c => #[trigger] m[j].1) by {
                let i = choose|i: int| 0 <= i < ls.len() && #[trigger] m[j] == ls[i];
                assert(decreases_to!(c => ls[i].1));
            }
        },
        _ => {},
    }
}

fn join(prefix: Option<&str>, key: &str) -> (r: String)
    ensures
        r@ == join_path(prefix_view(prefix), key@),
{
    match prefix {
        Some(p) => String::from_str(p).concat(".").concat(key),
        None => key.to_owned(),
    }
}

/// Appends the leaves of the key condition `es` under `prefix` to `out`.
#[verifier::rlimit(50)]
fn flatten_into(es: Vec<(String, Condition)>, prefix: Option<&str>, out: &mut Vec<(String, Condition)>)
    ensures
        entries_view(final(out)@) == entries_view(old(out)@) + leaves_from(
            Condition::Keys(es),
            prefix_view(prefix),
            0,
        ),
    decreases es,
{
    let ghost c = Condition::Keys(es);
    let ghost es0 = es;
    let ghost orig = es@;
    let ghost start = entries_view(out@);
    let mut rest = es;
    let n = rest.len();
    let mut i: usize = 0;
    proof {
        assert(orig.subrange(0, orig.len() as int) =~= orig);
        assert(start + leaves_from(c, prefix_view(prefix), 0) =~= entries_view(out@) + leaves_from(c, prefix_view(prefix), 0));
    }
    while rest.len() > 0
        invariant
            c == Condition::Keys(es0),
            es0 == es,
            orig == es0@,
            n == orig.len(),
            i <= orig.len(),
            rest@ == orig.subrange(i as int, orig.len() as int),
            start + leaves_from(c, prefix_view(prefix), 0) == entries_view(out@) + leaves_from(c, prefix_view(prefix), i as int),
        decreases rest@.len(),
    {
        proof {
            assert(i < orig.len());
            lemma_leaves_step(c, es0, prefix_view(prefix), i as int);
            assert(decreases_to!(es0 => es0@));
            assert(decreases_to!(es0@ => es0@[i as int]));
            assert(decreases_to!(es0@[i as int] => es0@[i as int].1));
        }
        let (k, sub) = rest.remove(0);
        let ghost sub0 = sub;
        proof {
            assert(sub0 == es0@[i as int].1);
            assert(k@ == es0@[i as int].0@);
        }
        let path = join(prefix, k.as_str());
        let ghost before = entries_view(out@);
        match sub {
            Condition::Keys(inner) => {
                proof {
                    assert(decreases_to!(es0 => es0@));
                    assert(decreases_to!(es0@ => es0@[i as int]));
                    assert(decreases_to!(es0@[i as int] => es0@[i as int].1));
                    assert(decreases_to!(sub0 => sub0->Keys_0));
                    assert(sub0->Keys_0 == inner);
                    assert(decreases_to!(es0 => inner));
                }
                flatten_into(inner, Some(path.as_str()), out);
            },
            other => {
                out.push((path, other));
                proof {
                    assert(entries_view(out@) =~= before + seq![(path@, other)]);
                }
            },
        }
        proof {
            assert(rest@ =~= orig.subrange(i + 1, orig.len() as int));
        }
        i = i + 1;
    }
    proof {
        assert(leaves_from(c, prefix_view(prefix), i as int) =~= Seq::<(Seq<char>, Condition)>::empty());
    }
}

/// Merges leaves: a later leaf with the path of an earlier one takes its
/// place.
#[verifier::rlimit(50)]
fn merge_leaves(ls: Vec<(String, Condition)>) -> (r: Vec<(String, Condition)>)
    ensures
        entries_view(r@) == merge(entries_view(ls@)),
{
    let ghost orig = entries_view(ls@);
    let mut r: Vec<(String, Condition)> = Vec::new();
    let mut rest = ls;
    let n = rest.len();
    let mut i: usize = 0;
    proof {
        assert(entries_view(r@) =~= merge(orig.subrange(0, 0)));
        assert(entries_view(rest@) =~= orig.subrange(0, orig.len() as int));
    }
    while rest.len() > 0
        invariant
            i <= orig.len(),
            n == orig.len(),
            entries_view(rest@) == orig.subrange(i as int, orig.len() as int),
            entries_view(r@) == merge(orig.subrange(0, i as int)),
        decreases rest@.len(),
    {
        proof {
            assert(entries_view(rest@).len() == rest@.len());
            assert(i < orig.len());
            assert(entries_view(rest@)[0] == orig[i as int]);
        }
        let ghost old_rest = rest@;
        let (k, c) = rest.remove(0);
        proof {
            assert forall|j: int| 0 <= j < rest@.len() implies #[trigger] entries_view(rest@)[j]
                == entries_view(old_rest)[j + 1] by {
                assert(rest@[j] == old_rest[j + 1]);
            }
        }
        let ghost before = r@;
        put_entry(&mut r, k, c);
        proof {
            lemma_find_view(before, k@);
            let upto = orig.subrange(0, i + 1);
            assert(upto.drop_last() =~= orig.subrange(0, i as int));
            assert(upto.last() == (k@, c));
            assert(entries_view(rest@) =~= orig.subrange(i + 1, orig.len() as int));
        }
        i = i + 1;
    }
    proof {
        assert(orig.subrange(0, i as int) =~= orig);
    }
    r
}

/// The document that holds only `v` under `k`.
fn single(k: &str, v: Value) -> (r: Value)
    ensures
        single_entry(r, k@) == Some(v),
{
    let mut o = Object::new();
    o.insert(String::from_str(k), v);
    proof {
        assert(entries_view(o@) =~= seq![(k@, v)]);
        assert(o@.len() == 1);
        assert(entries_view(o@)[0] == (o@[0].0@, o@[0].1));
    }
    Value::Object(o)
}

/// Compiles a condition into the filter document of a document database
/// (see `filter_of`).
#[verifier::rlimit(50)]
pub fn condition_to_filter(condition: Condition) -> (r: Value)
    ensures
        filter_of(condition, r),
    decreases condition, 1nat,
{
    let ghost c = condition;
    match condition {
        Condition::True => single("$where", Value::String(String::from_str("true"))),
        Condition::False => single("$where", Value::String(String::from_str("false"))),
        Condition::Not(inner) => {
            let g = condition_to_filter(*inner);
            single("$not", g)
        },
        Condition::And(cs) => {
            let gs = filters_of_list(cs, Ghost(c));
            single("$and", Value::Array(gs))
        },
        Condition::Or(cs) => {
            let gs = filters_of_list(cs, Ghost(c));
            single("$or", Value::Array(gs))
        },
        Condition::Keys(es) => {
            let mut ls: Vec<(String, Condition)> = Vec::new();
            proof {
                assert(entries_view(ls@) =~= Seq::<(Seq<char>, Condition)>::empty());
                assert(c == Condition::Keys(es));
            }
            flatten_into(es, None, &mut ls);
            proof {
                assert(entries_view(ls@) =~= leaves_from(c, None, 0));
            }
            let merged = merge_leaves(ls);
            let ghost m = filter_leaves(c);
            proof {
                assert(entries_view(merged@) =~= m);
                lemma_leaves_smaller(c, None, 0);
                lemma_merge(leaves_from(c, None, 0));
            }
            let mut doc = Object::new();
            let mut rest = merged;
            let n = rest.len();
            proof {
                assert(entries_view(rest@) =~= m.subrange(0, m.len() as int));
            }
            let mut i: usize = 0;
            while rest.len() > 0
                invariant
                    c == Condition::Keys(es),
                    c == condition,
                    m == filter_leaves(c),
                    n == m.len(),
                    i <= m.len(),
                    entries_view(rest@) == m.subrange(i as int, m.len() as int),
                    doc@.len() == i,
                    forall|j: int| 0 <= j < m.len() ==> decreases_to!(c => #[trigger] m[j].1),
                    forall|a: int, b: int|
                        0 <= a < m.len() && 0 <= b < m.len() && a != b ==> m[a].0 != m[b].0,
                    forall|j: int|
                        0 <= j < i ==> (#[trigger] doc@[j]).0@ == m[j].0 && filter_of(m[j].1, doc@[j].1),
                decreases rest@.len(),
            {
                proof {
                    assert(entries_view(rest@).len() == rest@.len());
                    assert(i < m.len());
                    assert(entries_view(rest@)[0] == m[i as int]);
                }
                let ghost old_rest = rest@;
                let (k, leaf) = rest.remove(0);
                proof {
                    assert forall|j: int| 0 <= j < rest@.len() implies #[trigger] entries_view(rest@)[j]
                        == entries_view(old_rest)[j + 1] by {
                        assert(rest@[j] == old_rest[j + 1]);
                    }
                    assert(leaf == m[i as int].1);
                    assert(decreases_to!(c => m[i as int].1));
                }
                let f = condition_to_filter(leaf);
                let ghost before = doc@;
                proof {
                    lemma_find_view(before, k@);
                    lemma_find_view_spec(entries_view(before), k@);
                    assert forall|j: int| 0 <= j < before.len() implies entries_view(before)[j].0 != k@ by {
                        assert(before[j].0@ == m[j].0);
                    }
                }
                doc.insert(k, f);
                proof {
                    assert(entries_view(doc@) =~= entries_view(before).push((k@, f)));
                    assert forall|j: int| 0 <= j < i + 1 implies (#[trigger] doc@[j]).0@ == m[j].0
                        && filter_of(m[j].1, doc@[j].1) by {
                        assert(entries_view(doc@)[j] == (doc@[j].0@, doc@[j].1));
                        if j < i {
                            assert(entries_view(before)[j] == (before[j].0@, before[j].1));
                        }
                    }
                    assert(entries_view(rest@) =~= m.subrange(i + 1, m.len() as int));
                }
                i = i + 1;
            }
            let r = Value::Object(doc);
            proof {
                assert(filter_of(c, r));
            }
            r
        },
        Condition::Equal(v) => single("$eq", v),
    }
}

/// Compiles each condition of a list, in order.
#[verifier::rlimit(50)]
fn filters_of_list(cs: Vec<Condition>, parent: Ghost<Condition>) -> (r: Vec<Value>)
    requires
        parent@ == Condition::And(cs) || parent@ == Condition::Or(cs),
    ensures
        r@.len() == cs@.len(),
        forall|i: int| 0 <= i < cs@.len() ==> filter_of(#[trigger] cs@[i], r@[i]),
    decreases parent@, 0nat,
{
    let ghost orig = cs@;
    let mut gs: Vec<Value> = Vec::new();
    let mut rest = cs;
    let n = rest.len();
    let mut i: usize = 0;
    while rest.len() > 0
        invariant
            i <= orig.len(),
            n == orig.len(),
            orig == cs@,
            parent@ == Condition::And(cs) || parent@ == Condition::Or(cs),
            rest@ == orig.subrange(i as int, orig.len() as int),
            gs@.len() == i,
            forall|j: int| 0 <= j < i ==> filter_of(#[trigger] orig[j], gs@[j]),
        decreases rest@.len(),
    {
        proof {
            if parent@ == Condition::And(cs) {
                assert(decreases_to!(parent@ => parent@->And_0));
            } else {
                assert(parent@ == Condition::Or(cs));
                assert(decreases_to!(parent@ => parent@->Or_0));
            }
            assert(decreases_to!(cs => cs@));
            assert(decreases_to!(cs@ => cs@[i as int]));
            assert(rest@[0] == orig[i as int]);
        }
        let x = rest.remove(0);
        proof {
            assert(decreases_to!(parent@ => x));
        }
        gs.push(condition_to_filter(x));
        proof {
            assert(rest@ =~= orig.subrange(i + 1, orig.len() as int));
        }
        i = i + 1;
    }
    gs
}

/// The keys of a pointer joined by dots.
pub open spec fn dotted(p: Seq<Seq<char>>) -> Seq<char>
    decreases p.len(),
{
    if p.len() == 0 {
        Seq::empty()
    } else if p.len() == 1 {
        p[0]
    } else {
        dotted(p.drop_last()) + "."@ + p.last()
    }
}

/// The entries that sort rules compile to, in order: the dotted path of
/// each rule's property, with `1` for ascending and `-1` for descending.
pub open spec fn sort_pairs(rules: Seq<SortView>) -> Seq<(Seq<char>, Value)> {
    Seq::new(
        rules.len(),
        |i: int|
            (
                dotted(rules[i].property),
                Value::I64(
                    if rules[i].ascending {
                        1i64
                    } else {
                        -1i64
                    },
                ),
            ),
    )
}

fn dotted_path(p: &Vec<String>) -> (r: String)
    ensures
        r@ == dotted(pointer_view(p@)),
{
    let ghost pv = pointer_view(p@);
    let mut r = String::new();
    let mut j: usize = 0;
    while j < p.len()
        invariant
            j <= p@.len(),
            pv == pointer_view(p@),
            r@ == dotted(pv.subrange(0, j as int)),
        decreases p@.len() - j,
    {
        let ghost upto = pv.subrange(0, j + 1);
        proof {
            assert(upto.drop_last() =~= pv.subrange(0, j as int));
            assert(upto.last() == p@[j as int]@);
        }
        if j == 0 {
            r = r.concat(p[j].as_str());
            proof {
                assert(r@ =~= upto[0]);
            }
        } else {
            r = r.concat(".").concat(p[j].as_str());
        }
        j = j + 1;
    }
    proof {
        assert(pv.subrange(0, j as int) =~= pv);
    }
    r
}

/// Puts each pair into `doc` in turn.
#[verifier::rlimit(50)]
fn put_all(doc: &mut Object, pairs: Vec<(String, Value)>, Ghost(base): Ghost<Seq<(Seq<char>, Value)>>)
    requires
        entries_view(old(doc)@) == merge(base),
    ensures
        entries_view(final(doc)@) == merge(base + entries_view(pairs@)),
{
    let ghost orig = entries_view(pairs@);
    let mut rest = pairs;
    let n = rest.len();
    let mut i: usize = 0;
    proof {
        assert(base + orig.subrange(0, 0) =~= base);
        assert(entries_view(rest@) =~= orig.subrange(0, orig.len() as int));
    }
    while rest.len() > 0
        invariant
            i <= orig.len(),
            n == orig.len(),
            entries_view(rest@) == orig.subrange(i as int, orig.len() as int),
            entries_view(doc@) == merge(base + orig.subrange(0, i as int)),
        decreases rest@.len(),
    {
        proof {
            assert(entries_view(rest@).len() == rest@.len());
            assert(entries_view(rest@)[0] == orig[i as int]);
        }
        let ghost old_rest = rest@;
        let (k, v) = rest.remove(0);
        proof {
            assert forall|j: int| 0 <= j < rest@.len() implies #[trigger] entries_view(rest@)[j]
                == entries_view(old_rest)[j + 1] by {
                assert(rest@[j] == old_rest[j + 1]);
            }
        }
        let ghost before = doc@;
        doc.insert(k, v);
        proof {
            lemma_find_view(before, k@);
            let upto = base + orig.subrange(0, i + 1);
            assert(upto.drop_last() =~= base + orig.subrange(0, i as int));
            assert(upto.last() == (k@, v));
            assert(entries_view(rest@) =~= orig.subrange(i + 1, orig.len() as int));
        }
        i = i + 1;
    }
    proof {
        assert(orig.subrange(0, i as int) =~= orig);
    }
}

/// Compiles sort rules into the sort document of a document database: each
/// rule's dotted property path mapped to `1` (ascending) or `-1`
/// (descending), earlier rules first.
pub fn sort_rules_to_sort(sort_rules: Vec<Sort>) -> (r: Value)
    ensures
        r matches Value::Object(o) && entries_view(o@) == merge(sort_pairs(sorts_view(sort_rules@))),
{
    let ghost rules = sorts_view(sort_rules@);
    let mut pairs: Vec<(String, Value)> = Vec::new();
    let mut i: usize = 0;
    while i < sort_rules.len()
        invariant
            i <= sort_rules@.len(),
            rules == sorts_view(sort_rules@),
            entries_view(pairs@) == sort_pairs(rules).subrange(0, i as int),
        decreases sort_rules@.len() - i,
    {
        let rule = &sort_rules[i];
        let path = dotted_path(rule.pointer());
        let direction: i64 = if rule.is_descending() {
            -1
        } else {
            1
        };
        let ghost before = entries_view(pairs@);
        pairs.push((path, Value::I64(direction)));
        proof {
            assert(entries_view(pairs@) =~= before.push((path@, Value::I64(direction))));
            assert(sort_pairs(rules).subrange(0, i + 1) =~= sort_pairs(rules).subrange(0, i as int).push(
                sort_pairs(rules)[i as int],
            ));
        }
        i = i + 1;
    }
    proof {
        assert(sort_pairs(rules).subrange(0, i as int) =~= sort_pairs(rules));
    }
    let mut doc = Object::new();
    proof {
        assert(entries_view(doc@) =~= merge(Seq::<(Seq<char>, Value)>::empty()));
    }
    put_all(&mut doc, pairs, Ghost(Seq::empty()));
    proof {
        assert(Seq::<(Seq<char>, Value)>::empty() + sort_pairs(rules) =~= sort_pairs(rules));
    }
    Value::Object(doc)
}

/// The dot-joined paths of the parts a selection names from its `i`-th key
/// on, in order; a key with an empty selection of keys names nothing.
pub open spec fn selected_paths(q: Query, prefix: Option<Seq<char>>, i: int) -> Seq<Seq<char>>
    decreases q, width(q) - i,
{
    match q {
        Query::Keys(es) => if 0 <= i < es@.len() {
            let path = join_path(prefix, es@[i].0@);
            let head = match es@[i].1 {
                Query::Keys(_) => selected_paths(es@[i].1, Some(path), 0),
                Query::All => seq![path],
            };
            head + selected_paths(q, prefix, i + 1)
        } else {
            Seq::empty()
        },
        Query::All => Seq::empty(),
    }
}

/// The entries that a selection compiles to: the identity field `_id`
/// excluded (`0`), then each selected path included (`1`).
pub open spec fn projection_pairs(q: Query) -> Seq<(Seq<char>, Value)> {
    seq![("_id"@, Value::I64(0i64))] + selected_paths(q, None, 0).map_values(
        |p: Seq<char>| (p, Value::I64(1i64)),
    )
}

#[verifier::rlimit(50)]
fn collect_paths(q: &Query, prefix: Option<&str>, out: &mut Vec<(String, Value)>)
    ensures
        entries_view(final(out)@) == entries_view(old(out)@) + selected_paths(*q, prefix_view(prefix), 0).map_values(
            |p: Seq<char>| (p, Value::I64(1i64)),
        ),
    decreases q,
{
    let es = match q {
        Query::All => {
            proof {
                assert(entries_view(out@) =~= entries_view(out@) + Seq::<(Seq<char>, Value)>::empty());
            }
            return ;
        },
        Query::Keys(es) => es,
    };
    let ghost start = entries_view(out@);
    let ghost f = |p: Seq<char>| (p, Value::I64(1i64));
    let mut i: usize = 0;
    proof {
        assert(start + selected_paths(*q, prefix_view(prefix), 0).map_values(f) =~= entries_view(out@)
            + selected_paths(*q, prefix_view(prefix), 0).map_values(f));
    }
    while i < es.len()
        invariant
            i <= es@.len(),
            *q == Query::Keys(*es),
            f == (|p: Seq<char>| (p, Value::I64(1i64))),
            start + selected_paths(*q, prefix_view(prefix), 0).map_values(f) == entries_view(out@)
                + selected_paths(*q, prefix_view(prefix), i as int).map_values(f),
        decreases es@.len() - i,
    {
        proof {
            assert(decreases_to!(*q => q->Keys_0));
            assert(decreases_to!(*es => es@));
            assert(decreases_to!(es@ => es@[i as int]));
            assert(decreases_to!(es@[i as int] => es@[i as int].1));
        }
        let path = join(prefix, es[i].0.as_str());
        let ghost before = entries_view(out@);
        let ghost head = match es@[i as int].1 {
            Query::Keys(_) => selected_paths(es@[i as int].1, Some(path@), 0),
            Query::All => seq![path@],
        };
        let ghost tail = selected_paths(*q, prefix_view(prefix), i + 1);
        proof {
            assert(selected_paths(*q, prefix_view(prefix), i as int) == head + tail);
            assert((head + tail).map_values(f) =~= head.map_values(f) + tail.map_values(f));
        }
        match &es[i].1 {
            Query::Keys(_) => {
                collect_paths(&es[i].1, Some(path.as_str()), out);
            },
            Query::All => {
                out.push((path, Value::I64(1)));
                proof {
                    assert(entries_view(out@) =~= before + head.map_values(f));
                }
            },
        }
        proof {
            assert(entries_view(out@) == before + head.map_values(f));
        }
        i = i + 1;
    }
    proof {
        assert(selected_paths(*q, prefix_view(prefix), i as int) =~= Seq::<Seq<char>>::empty());
        assert(Seq::<Seq<char>>::empty().map_values(f) =~= Seq::<(Seq<char>, Value)>::empty());
    }
}

/// Compiles a selection into the projection document of a document
/// database (see `projection_pairs`): selecting everything restricts no
/// field but the identity field.
pub fn query_to_projection(query: &Query) -> (r: Value)
    ensures
        r matches Value::Object(o) && entries_view(o@) == merge(projection_pairs(*query)),
{
    let mut pairs: Vec<(String, Value)> = Vec::new();
    pairs.push((String::from_str("_id"), Value::I64(0)));
    let ghost first = entries_view(pairs@);
    proof {
        assert(first =~= seq![("_id"@, Value::I64(0i64))]);
    }
    collect_paths(query, None, &mut pairs);
    let mut doc = Object::new();
    proof {
        assert(entries_view(doc@) =~= merge(Seq::<(Seq<char>, Value)>::empty()));
    }
    put_all(&mut doc, pairs, Ghost(Seq::empty()));
    proof {
        assert(Seq::<(Seq<char>, Value)>::empty() + entries_view(pairs@) =~= projection_pairs(*query));
    }
    Value::Object(doc)
}

/// A count as a document integer, capped at the largest one.
pub open spec fn count_value(n: usize) -> Value {
    Value::I64(
        if n <= i64::MAX {
            n as i64
        } else {
            i64::MAX
        },
    )
}

fn count(n: usize) -> (r: Value)
    ensures
        r == count_value(n),
{
    let m = n as u64;
    if m <= 0x7fff_ffff_ffff_ffff {
        Value::I64(m as i64)
    } else {
        Value::I64(i64::MAX)
    }
}

/// Whether `r` is the `find` command of a read: the collection's name, then
/// the filter, sort and projection documents, then the limit and the number
/// of records to skip where the range has them.
pub open spec fn is_find_command(
    name: Seq<char>,
    condition: Condition,
    rules: Seq<SortView>,
    range: crate::query::RangeView,
    query: Query,
    r: Value,
) -> bool {
    r matches Value::Object(o) && {
        let e = entries_view(o@);
        let extra = match range.limit {
            Some(l) => seq![("limit"@, count_value(l))],
            None => Seq::empty(),
        } + match range.offset {
            Some(s) => seq![("skip"@, count_value(s))],
            None => Seq::empty(),
        };
        &&& e.len() == 4 + extra.len()
        &&& e[0].0 == "find"@
        &&& (e[0].1 matches Value::String(n) && n@ == name)
        &&& e[1].0 == "filter"@
        &&& filter_of(condition, e[1].1)
        &&& e[2].0 == "sort"@
        &&& (e[2].1 matches Value::Object(so) && entries_view(so@) == merge(sort_pairs(rules)))
        &&& e[3].0 == "projection"@
        &&& (e[3].1 matches Value::Object(po) && entries_view(po@) == merge(projection_pairs(query)))
        &&& e.subrange(4, e.len() as int) == extra
    }
}

fn add_new(o: &mut Object, k: &str, v: Value)
    requires
        forall|j: int| 0 <= j < old(o)@.len() ==> (#[trigger] entries_view(old(o)@)[j]).0 != k@,
    ensures
        entries_view(final(o)@) == entries_view(old(o)@).push((k@, v)),
{
    let ghost before = o@;
    proof {
        assert forall|j: int| 0 <= j < before.len() implies before[j].0@ != k@ by {
            assert(entries_view(before)[j].0 == before[j].0@);
        }
        crate::entries::lemma_find_key_none(before, k@);
    }
    o.insert(String::from_str(k), v);
    proof {
        assert(entries_view(o@) =~= entries_view(before).push((k@, v)));
    }
}

/// Builds the `find` command of a read from a collection (see
/// `is_find_command`).
#[verifier::rlimit(50)]
pub fn find_command(name: &str, condition: Condition, sort_rules: Vec<Sort>, range: &Range, query: &Query) -> (r: Value)
    ensures
        is_find_command(name@, condition, sorts_view(sort_rules@), range@, *query, r),
{
    proof {
        reveal_strlit("find");
        reveal_strlit("filter");
        reveal_strlit("sort");
        reveal_strlit("projection");
        reveal_strlit("limit");
        reveal_strlit("skip");
    }
    let ghost rules = sorts_view(sort_rules@);
    let ghost c = condition;
    let filter = condition_to_filter(condition);
    let sort = sort_rules_to_sort(sort_rules);
    let projection = query_to_projection(query);
    let mut o = Object::new();
    proof {
        assert(entries_view(o@) =~= Seq::<(Seq<char>, Value)>::empty());
        assert("find"@.len() == 4 && "find"@[0] == 'f' && "find"@[2] == 'n');
        assert("filter"@.len() == 6 && "filter"@[0] == 'f');
        assert("sort"@.len() == 4 && "sort"@[0] == 's' && "sort"@[1] == 'o');
        assert("projection"@.len() == 10);
        assert("limit"@.len() == 5);
        assert("skip"@.len() == 4 && "skip"@[0] == 's' && "skip"@[1] == 'k');
    }
    add_new(&mut o, "find", Value::String(name.to_owned()));
    proof {
        assert(entries_view(o@).len() == 1 && entries_view(o@)[0].0 == "find"@);
    }
    add_new(&mut o, "filter", filter);
    proof {
        assert(entries_view(o@).len() == 2 && entries_view(o@)[0].0 == "find"@ && entries_view(o@)[1].0
            == "filter"@);
    }
    add_new(&mut o, "sort", sort);
    proof {
        assert(entries_view(o@).len() == 3 && entries_view(o@)[0].0 == "find"@ && entries_view(o@)[1].0
            == "filter"@ && entries_view(o@)[2].0 == "sort"@);
    }
    add_new(&mut o, "projection", projection);
    proof {
        assert(entries_view(o@).len() == 4 && entries_view(o@)[0].0 == "find"@ && entries_view(o@)[1].0
            == "filter"@ && entries_view(o@)[2].0 == "sort"@ && entries_view(o@)[3].0 == "projection"@);
    }
    let ghost base = entries_view(o@);
    match range.limit() {
        Some(l) => {
            add_new(&mut o, "limit", count(l));
        },
        None => {},
    }
    proof {
        assert(entries_view(o@).subrange(0, 4) =~= base);
        assert forall|j: int| 0 <= j < entries_view(o@).len() implies (#[trigger] entries_view(o@)[j]).0
            != "skip"@ by {
            if j < 4 {
                assert(entries_view(o@)[j] == base[j]);
            }
        }
    }
    match range.offset() {
        Some(s) => {
            add_new(&mut o, "skip", count(s));
        },
        None => {},
    }
    let r = Value::Object(o);
    proof {
        let e = entries_view(o@);
        let extra = match range@.limit {
            Some(l) => seq![("limit"@, count_value(l))],
            None => Seq::empty(),
        } + match range@.offset {
            Some(s) => seq![("skip"@, count_value(s))],
            None => Seq::empty(),
        };
        assert(e.subrange(4, e.len() as int) =~= extra);
        assert(is_find_command(name@, c, rules, range@, *query, r));
    }
    r
}

/// The index of the last dot of a path, if any.
pub open spec fn last_dot(s: Seq<char>) -> Option<int>
    decreases s.len(),
{
    if s.len() == 0 {
        None
    } else if s.last() == '.' {
        Some(s.len() - 1)
    } else {
        last_dot(s.drop_last())
    }
}

/// The keys that a dotted path names, in order.
pub open spec fn split_path(s: Seq<char>) -> Seq<Seq<char>>
    decreases s.len(),
{
    match last_dot(s) {
        Some(i) => if 0 <= i < s.len() {
            split_path(s.subrange(0, i)).push(s.subrange(i + 1, s.len() as int))
        } else {
            seq![s]
        },
        None => seq![s],
    }
}

/// Whether a key opens an operator document.
pub open spec fn is_operator(k: Seq<char>) -> bool {
    k.len() > 0 && k[0] == '$'
}

/// Whether a document database's filter accepts a document, for the part
/// of its query language that filters compile to: `$where` with the text
/// `true` or `false`, `$not`, `$and`, `$or`, `$eq`, and documents from
/// dotted paths to the filters of the values found there.
pub open spec fn accepts(f: Value, doc: Value) -> bool
    decreases f via accepts_decreases
{
    match f {
        Value::Object(o) => if o@.len() == 1 && is_operator(o@[0].0@) {
            let k = o@[0].0@;
            let g = o@[0].1;
            if k == "$where"@ {
                g matches Value::String(s) && s@ == "true"@
            } else if k == "$not"@ {
                !accepts(g, doc)
            } else if k == "$and"@ {
                g matches Value::Array(gs) && forall|i: int|
                    0 <= i < gs@.len() ==> accepts(#[trigger] gs@[i], doc)
            } else if k == "$or"@ {
                g matches Value::Array(gs) && exists|i: int|
                    0 <= i < gs@.len() && accepts(#[trigger] gs@[i], doc)
            } else if k == "$eq"@ {
                value_eq(doc, g)
            } else {
                false
            }
        } else {
            forall|j: int|
                0 <= j < o@.len() ==> match value_at(doc, split_path((#[trigger] o@[j]).0@)) {
                    Some(w) => accepts(o@[j].1, w),
                    None => false,
                }
        },
        _ => false,
    }
}

#[via_fn]
proof fn accepts_decreases(f: Value, doc: Value) {
    if let Value::Object(o) = f {
        assert forall|j: int| 0 <= j < o@.len() implies decreases_to!(f => #[trigger] o@[j].1) by {
            lemma_entry_decreases(f, j);
        }
        if o@.len() == 1 {
            let g = o@[0].1;
            if let Value::Array(gs) = g {
                assert forall|i: int| 0 <= i < gs@.len() implies decreases_to!(f => #[trigger] gs@[i]) by {
                    assert(decreases_to!(g => g->Array_0));
                    assert(decreases_to!(gs => gs@));
                    assert(decreases_to!(gs@ => gs@[i]));
                }
            }
        }
    }
}

/// Whether a key can stand as a segment of a dotted path: it holds no dot
/// and does not open an operator document.
pub open spec fn plain_key(k: Seq<char>) -> bool {
    !is_operator(k) && forall|i: int| 0 <= i < k.len() ==> k[i] != '.'
}

proof fn lemma_no_dot(k: Seq<char>)
    requires
        forall|i: int| 0 <= i < k.len() ==> k[i] != '.',
    ensures
        last_dot(k) is None,
        split_path(k) == seq![k],
    decreases k.len(),
{
    if k.len() > 0 {
        let init = k.drop_last();
        assert forall|i: int| 0 <= i < init.len() implies init[i] != '.' by {
            assert(init[i] == k[i]);
        }
        lemma_no_dot(init);
    }
}

proof fn lemma_merge_unique<V>(ls: Seq<(Seq<char>, V)>)
    requires
        forall|a: int, b: int| 0 <= a < ls.len() && 0 <= b < ls.len() && a != b ==> ls[a].0 != ls[b].0,
    ensures
        merge(ls) == ls,
    decreases ls.len(),
{
    if ls.len() > 0 {
        let init = ls.drop_last();
        lemma_merge_unique(init);
        lemma_find_view_spec(init, ls.last().0);
        assert(find_view(init, ls.last().0) is None) by {
            if let Some(j) = find_view(init, ls.last().0) {
                assert(ls[j].0 == ls[ls.len() - 1].0);
            }
        }
        assert(init.push(ls.last()) =~= ls);
    }
}

/// Whether a key can name a segment of a nested path: not empty, and
/// plain.
pub open spec fn key_ok(k: Seq<char>) -> bool {
    k.len() > 0 && plain_key(k)
}

/// Whether every key of a path can name a segment.
pub open spec fn keys_ok(ps: Seq<Seq<char>>) -> bool {
    forall|i: int| 0 <= i < ps.len() ==> key_ok(#[trigger] ps[i])
}

proof fn lemma_last_dot_join(a: Seq<char>, b: Seq<char>)
    requires
        forall|i: int| 0 <= i < b.len() ==> b[i] != '.',
    ensures
        last_dot(a + "."@ + b) == Some(a.len() as int),
    decreases b.len(),
{
    reveal_strlit(".");
    let s = a + "."@ + b;
    if b.len() > 0 {
        let bi = b.drop_last();
        assert forall|i: int| 0 <= i < bi.len() implies bi[i] != '.' by {
            assert(bi[i] == b[i]);
        }
        lemma_last_dot_join(a, bi);
        assert(s.drop_last() =~= a + "."@ + bi);
        assert(s.last() == b[b.len() - 1]);
    } else {
        assert(s.last() == '.');
    }
}

proof fn lemma_dotted_first(ps: Seq<Seq<char>>)
    requires
        ps.len() > 0,
        keys_ok(ps),
    ensures
        dotted(ps).len() > 0,
        dotted(ps)[0] == ps[0][0],
    decreases ps.len(),
{
    assert(key_ok(ps[0]));
    if ps.len() > 1 {
        let init = ps.drop_last();
        assert(keys_ok(init)) by {
            assert forall|i: int| 0 <= i < init.len() implies key_ok(#[trigger] init[i]) by {
                assert(init[i] == ps[i]);
            }
        }
        lemma_dotted_first(init);
    }
}

proof fn lemma_split_dotted(ps: Seq<Seq<char>>)
    requires
        ps.len() > 0,
        keys_ok(ps),
    ensures
        split_path(dotted(ps)) == ps,
    decreases ps.len(),
{
    assert(key_ok(ps[ps.len() - 1]));
    if ps.len() == 1 {
        lemma_no_dot(ps[0]);
        assert(seq![ps[0]] =~= ps);
    } else {
        reveal_strlit(".");
        let init = ps.drop_last();
        assert(keys_ok(init)) by {
            assert forall|i: int| 0 <= i < init.len() implies key_ok(#[trigger] init[i]) by {
                assert(init[i] == ps[i]);
            }
        }
        lemma_split_dotted(init);
        let a = dotted(init);
        let b = ps.last();
        lemma_last_dot_join(a, b);
        let s = a + "."@ + b;
        assert(s.subrange(0, a.len() as int) =~= a);
        assert(s.subrange(a.len() as int + 1, s.len() as int) =~= b);
        assert(init.push(b) =~= ps);
    }
}

/// The prefix that a path of keys writes: none at the top level.
pub open spec fn prefix_of(ps: Seq<Seq<char>>) -> Option<Seq<char>> {
    if ps.len() == 0 {
        None
    } else {
        Some(dotted(ps))
    }
}

proof fn lemma_join_dotted(ps: Seq<Seq<char>>, k: Seq<char>)
    ensures
        join_path(prefix_of(ps), k) == dotted(ps.push(k)),
        prefix_of(ps.push(k)) == Some(dotted(ps.push(k))),
{
    let q = ps.push(k);
    assert(q.drop_last() =~= ps);
}

/// The leaves of the key conditions of `c` from the `i`-th on, each with
/// the keys of its path below `ps`.
pub open spec fn seg_leaves(c: Condition, ps: Seq<Seq<char>>, i: int) -> Seq<(Seq<Seq<char>>, Condition)>
    decreases c, cond_width(c) - i,
{
    match c {
        Condition::Keys(es) => if 0 <= i < es@.len() {
            let path = ps.push(es@[i].0@);
            let sub = es@[i].1;
            let head = match sub {
                Condition::Keys(_) => seg_leaves(sub, path, 0),
                _ => seq![(path, sub)],
            };
            head + seg_leaves(c, ps, i + 1)
        } else {
            Seq::empty()
        },
        _ => Seq::empty(),
    }
}

/// Whether every key condition of `c` has unique keys that can name path
/// segments, and every key condition directly under a key names some key.
pub open spec fn well_keyed(c: Condition) -> bool
    decreases c,
{
    match c {
        Condition::Not(inner) => well_keyed(*inner),
        Condition::And(cs) => forall|i: int| 0 <= i < cs@.len() ==> well_keyed(#[trigger] cs@[i]),
        Condition::Or(cs) => forall|i: int| 0 <= i < cs@.len() ==> well_keyed(#[trigger] cs@[i]),
        Condition::Keys(es) => (forall|i: int|
            0 <= i < es@.len() ==> key_ok((#[trigger] es@[i]).0@) && well_keyed(es@[i].1) && (
            es@[i].1 is Keys ==> cond_width(es@[i].1) > 0)) && (forall|i: int, j: int|
            0 <= i < es@.len() && 0 <= j < es@.len() && i != j ==> es@[i].0@ != es@[j].0@),
        _ => true,
    }
}

proof fn lemma_seg_step(c: Condition, es: Vec<(String, Condition)>, ps: Seq<Seq<char>>, i: int)
    requires
        c == Condition::Keys(es),
        0 <= i < es@.len(),
    ensures
        decreases_to!(c => es@[i].1),
        seg_leaves(c, ps, i) == (match es@[i].1 {
            Condition::Keys(_) => seg_leaves(es@[i].1, ps.push(es@[i].0@), 0),
            _ => seq![(ps.push(es@[i].0@), es@[i].1)],
        }) + seg_leaves(c, ps, i + 1),
{
    assert(decreases_to!(c => c->Keys_0));
    assert(decreases_to!(es => es@));
    assert(decreases_to!(es@ => es@[i]));
    assert(decreases_to!(es@[i] => es@[i].1));
}

proof fn lemma_keys_ok_push(ps: Seq<Seq<char>>, k: Seq<char>)
    requires
        keys_ok(ps),
        key_ok(k),
    ensures
        keys_ok(ps.push(k)),
{
    assert forall|j: int| 0 <= j < ps.push(k).len() implies key_ok(#[trigger] ps.push(k)[j]) by {
        if j < ps.len() {
            assert(ps.push(k)[j] == ps[j]);
        }
    }
}

/// The dotted leaves are the segment leaves, each path written with dots.
#[verifier::rlimit(50)]
proof fn lemma_leaves_dotted(c: Condition, ps: Seq<Seq<char>>, i: int)
    requires
        keys_ok(ps),
        well_keyed(c),
    ensures
        leaves_from(c, prefix_of(ps), i) == seg_leaves(c, ps, i).map_values(
            |e: (Seq<Seq<char>>, Condition)| (dotted(e.0), e.1),
        ),
    decreases c, cond_width(c) - i,
{
    let f = |e: (Seq<Seq<char>>, Condition)| (dotted(e.0), e.1);
    if let Condition::Keys(es) = c {
        if 0 <= i < es@.len() {
            lemma_leaves_step(c, es, prefix_of(ps), i);
            lemma_seg_step(c, es, ps, i);
            let k = es@[i].0@;
            let sub = es@[i].1;
            assert(key_ok(k));
            lemma_join_dotted(ps, k);
            lemma_keys_ok_push(ps, k);
            lemma_leaves_dotted(c, ps, i + 1);
            let seg_head = match sub {
                Condition::Keys(_) => seg_leaves(sub, ps.push(k), 0),
                _ => seq![(ps.push(k), sub)],
            };
            if sub is Keys {
                lemma_leaves_dotted(sub, ps.push(k), 0);
            } else {
                assert(seg_head.map_values(f) =~= seq![(dotted(ps.push(k)), sub)]);
            }
            assert((seg_head + seg_leaves(c, ps, i + 1)).map_values(f) =~= seg_head.map_values(f)
                + seg_leaves(c, ps, i + 1).map_values(f));
        } else {
            assert(seg_leaves(c, ps, i).map_values(f) =~= Seq::<(Seq<char>, Condition)>::empty());
        }
    } else {
        assert(seg_leaves(c, ps, i).map_values(f) =~= Seq::<(Seq<char>, Condition)>::empty());
    }
}

/// The value at a joined path is found by going down the first part, then
/// the second.
proof fn lemma_value_at_append(root: Value, a: Seq<Seq<char>>, b: Seq<Seq<char>>)
    ensures
        value_at(root, a + b) == match value_at(root, a) {
            Some(w) => value_at(w, b),
            None => None,
        },
    decreases a.len(),
{
    if a.len() == 0 {
        assert(a + b =~= b);
    } else {
        assert((a + b).drop_first() =~= a.drop_first() + b);
        assert((a + b)[0] == a[0]);
        if let Some(w) = child(root, a[0]) {
            lemma_value_at_append(w, a.drop_first(), b);
        }
    }
}

/// Each segment leaf lies below `ps`, under the key of one of the entries
/// from the `i`-th on, and its segments can name path segments.
#[verifier::rlimit(50)]
proof fn lemma_seg_shape(c: Condition, ps: Seq<Seq<char>>, i: int)
    requires
        keys_ok(ps),
        well_keyed(c),
    ensures
        forall|t: int|
            #![trigger seg_leaves(c, ps, i)[t]]
            0 <= t < seg_leaves(c, ps, i).len() ==> {
                let e = seg_leaves(c, ps, i)[t];
                &&& e.0.len() > ps.len()
                &&& e.0.subrange(0, ps.len() as int) == ps
                &&& keys_ok(e.0)
                &&& well_keyed(e.1)
                &&& c matches Condition::Keys(es) && exists|u: int|
                    i <= u < es@.len() && e.0[ps.len() as int] == (#[trigger] es@[u]).0@
            },
    decreases c, cond_width(c) - i,
{
    if let Condition::Keys(es) = c {
        if 0 <= i < es@.len() {
            lemma_seg_step(c, es, ps, i);
            let k = es@[i].0@;
            let sub = es@[i].1;
            assert(key_ok(k));
            lemma_keys_ok_push(ps, k);
            lemma_seg_shape(c, ps, i + 1);
            let q = ps.push(k);
            let head = match sub {
                Condition::Keys(_) => seg_leaves(sub, q, 0),
                _ => seq![(q, sub)],
            };
            let tail = seg_leaves(c, ps, i + 1);
            let all = seg_leaves(c, ps, i);
            if sub is Keys {
                lemma_seg_shape(sub, q, 0);
            }
            assert forall|t: int| #![trigger all[t]] 0 <= t < all.len() implies {
                let e = all[t];
                &&& e.0.len() > ps.len()
                &&& e.0.subrange(0, ps.len() as int) == ps
                &&& keys_ok(e.0)
                &&& well_keyed(e.1)
                &&& c matches Condition::Keys(es) && exists|u: int|
                    i <= u < es@.len() && e.0[ps.len() as int] == (#[trigger] es@[u]).0@
            } by {
                if t < head.len() {
                    let e = head[t];
                    assert(all[t] == e);
                    if sub is Keys {
                        assert(e.0.subrange(0, q.len() as int) == q);
                        assert(e.0.subrange(0, ps.len() as int) =~= q.subrange(0, ps.len() as int));
                        assert(q.subrange(0, ps.len() as int) =~= ps);
                        assert(e.0[ps.len() as int] == q[ps.len() as int]);
                    } else {
                        assert(e.0 == q);
                        assert(q.subrange(0, ps.len() as int) =~= ps);
                    }
                    assert(e.0[ps.len() as int] == es@[i].0@);
                } else {
                    assert(all[t] == tail[t - head.len()]);
                }
            }
        }
    }
}

/// A key condition that names some key has some leaf.
proof fn lemma_seg_nonempty(c: Condition, ps: Seq<Seq<char>>)
    requires
        well_keyed(c),
        c is Keys,
        cond_width(c) > 0,
    ensures
        seg_leaves(c, ps, 0).len() > 0,
    decreases c,
{
    let es = c->Keys_0;
    lemma_seg_step(c, es, ps, 0);
    let sub = es@[0].1;
    if sub is Keys {
        lemma_seg_nonempty(sub, ps.push(es@[0].0@));
    }
}

/// No two segment leaves share a path.
#[verifier::rlimit(50)]
proof fn lemma_seg_unique(c: Condition, ps: Seq<Seq<char>>, i: int)
    requires
        keys_ok(ps),
        well_keyed(c),
    ensures
        forall|a: int, b: int|
            0 <= a < seg_leaves(c, ps, i).len() && 0 <= b < seg_leaves(c, ps, i).len() && a != b
                ==> seg_leaves(c, ps, i)[a].0 != seg_leaves(c, ps, i)[b].0,
    decreases c, cond_width(c) - i,
{
    if let Condition::Keys(es) = c {
        if 0 <= i < es@.len() {
            lemma_seg_step(c, es, ps, i);
            let k = es@[i].0@;
            let sub = es@[i].1;
            assert(key_ok(k));
            lemma_keys_ok_push(ps, k);
            let q = ps.push(k);
            let head = match sub {
                Condition::Keys(_) => seg_leaves(sub, q, 0),
                _ => seq![(q, sub)],
            };
            let tail = seg_leaves(c, ps, i + 1);
            let all = seg_leaves(c, ps, i);
            lemma_seg_unique(c, ps, i + 1);
            lemma_seg_shape(c, ps, i + 1);
            if sub is Keys {
                lemma_seg_unique(sub, q, 0);
                lemma_seg_shape(sub, q, 0);
            }
            assert forall|t: int| 0 <= t < head.len() implies (#[trigger] head[t]).0[ps.len() as int] == k by {
                if sub is Keys {
                    let e = head[t];
                    assert(e.0.subrange(0, q.len() as int) == q);
                    assert(e.0[ps.len() as int] == e.0.subrange(0, q.len() as int)[ps.len() as int]);
                }
            }
            assert forall|a: int, b: int|
                0 <= a < all.len() && 0 <= b < all.len() && a != b implies all[a].0 != all[b].0 by {
                if a < head.len() && b >= head.len() {
                    let eb = tail[b - head.len()];
                    assert(all[b] == eb);
                    assert(all[a] == head[a]);
                    let u = choose|u: int| i + 1 <= u < es@.len() && eb.0[ps.len() as int] == (#[trigger] es@[u]).0@;
                    assert(es@[u].0@ != k);
                    assert(head[a].0[ps.len() as int] == k);
                } else if b < head.len() && a >= head.len() {
                    let ea = tail[a - head.len()];
                    assert(all[a] == ea);
                    assert(all[b] == head[b]);
                    let u = choose|u: int| i + 1 <= u < es@.len() && ea.0[ps.len() as int] == (#[trigger] es@[u]).0@;
                    assert(es@[u].0@ != k);
                    assert(head[b].0[ps.len() as int] == k);
                } else if a < head.len() && b < head.len() {
                    assert(all[a] == head[a] && all[b] == head[b]);
                } else {
                    assert(all[a] == tail[a - head.len()] && all[b] == tail[b - head.len()]);
                }
            }
        }
    }
}

/// Whether the condition under an entry holds of what a value has under
/// the entry's key.
pub open spec fn entry_holds(w: Value, e: (String, Condition)) -> bool {
    match child(w, e.0@) {
        Some(u) => holds(e.1, u),
        None => false,
    }
}

/// Whether a leaf's condition holds of what a document has at the leaf's
/// path.
pub open spec fn leaf_holds(root: Value, e: (Seq<Seq<char>>, Condition)) -> bool {
    match value_at(root, e.0) {
        Some(u) => holds(e.1, u),
        None => false,
    }
}

proof fn lemma_value_at_push(root: Value, ps: Seq<Seq<char>>, k: Seq<char>)
    ensures
        value_at(root, ps.push(k)) == match value_at(root, ps) {
            Some(w) => child(w, k),
            None => None,
        },
{
    lemma_value_at_append(root, ps, seq![k]);
    assert(ps + seq![k] =~= ps.push(k));
    assert(seq![k].drop_first() =~= Seq::<Seq<char>>::empty());
    assert(seq![k][0] == k);
    if let Some(w) = value_at(root, ps) {
        if let Some(u) = child(w, k) {
            assert(value_at(u, Seq::empty()) == Some(u));
        }
    }
}

/// A key condition holds of the value at `ps` exactly when every leaf
/// holds at its path.
#[verifier::rlimit(50)]
proof fn lemma_seg_holds(c: Condition, ps: Seq<Seq<char>>, i: int, root: Value, w: Value)
    requires
        keys_ok(ps),
        well_keyed(c),
        c is Keys,
        0 <= i,
        value_at(root, ps) == Some(w),
    ensures
        (forall|t: int| i <= t < cond_width(c) ==> entry_holds(w, #[trigger] c->Keys_0@[t])) == (
        forall|t: int|
            0 <= t < seg_leaves(c, ps, i).len() ==> leaf_holds(root, #[trigger] seg_leaves(c, ps, i)[t])),
    decreases c, cond_width(c) - i,
{
    let es = c->Keys_0;
    if 0 <= i < es@.len() {
        lemma_seg_step(c, es, ps, i);
        let k = es@[i].0@;
        let sub = es@[i].1;
        assert(key_ok(k));
        lemma_keys_ok_push(ps, k);
        let q = ps.push(k);
        let head = match sub {
            Condition::Keys(_) => seg_leaves(sub, q, 0),
            _ => seq![(q, sub)],
        };
        let tail = seg_leaves(c, ps, i + 1);
        let all = seg_leaves(c, ps, i);
        lemma_seg_holds(c, ps, i + 1, root, w);
        lemma_value_at_push(root, ps, k);
        let head_ok = forall|t: int| 0 <= t < head.len() ==> leaf_holds(root, #[trigger] head[t]);
        if sub is Keys {
            let inner = sub->Keys_0;
            assert(decreases_to!(sub => sub->Keys_0));
            assert(decreases_to!(inner => inner@));
            assert forall|t: int| 0 <= t < inner@.len() implies decreases_to!(sub => #[trigger] inner@[t].1) by {
                assert(decreases_to!(inner@ => inner@[t]));
                assert(decreases_to!(inner@[t] => inner@[t].1));
            }
            assert(holds(sub, child(w, k)->0) == (forall|t: int|
                0 <= t < inner@.len() ==> entry_holds(child(w, k)->0, #[trigger] inner@[t]))) by {
                if let Some(u) = child(w, k) {
                    assert forall|t: int| 0 <= t < inner@.len() implies entry_holds(u, #[trigger] inner@[t])
                        == match child(u, inner@[t].0@) {
                        Some(x) => holds(inner@[t].1, x),
                        None => false,
                    } by {}
                }
            }
            match child(w, k) {
                Some(u) => {
                    lemma_seg_holds(sub, q, 0, root, u);
                    assert(entry_holds(w, es@[i]) == holds(sub, u));
                },
                None => {
                    lemma_seg_nonempty(sub, q);
                    lemma_seg_shape(sub, q, 0);
                    let e = head[0];
                    assert(e.0.subrange(0, q.len() as int) == q);
                    assert(q + e.0.subrange(q.len() as int, e.0.len() as int) =~= e.0);
                    lemma_value_at_append(root, q, e.0.subrange(q.len() as int, e.0.len() as int));
                    assert(!leaf_holds(root, head[0]));
                    assert(!entry_holds(w, es@[i]));
                },
            }
        } else {
            assert(head[0] == (q, sub));
            assert(head_ok == leaf_holds(root, (q, sub)));
        }
        assert forall|t: int| 0 <= t < all.len() implies #[trigger] all[t] == if t < head.len() {
            head[t]
        } else {
            tail[t - head.len()]
        } by {}
        assert((forall|t: int| 0 <= t < all.len() ==> leaf_holds(root, #[trigger] all[t])) == (head_ok
            && forall|t: int| 0 <= t < tail.len() ==> leaf_holds(root, #[trigger] tail[t]))) by {
            if head_ok && forall|t: int| 0 <= t < tail.len() ==> leaf_holds(root, #[trigger] tail[t]) {
                assert forall|t: int| 0 <= t < all.len() implies leaf_holds(root, #[trigger] all[t]) by {
                    if t >= head.len() {
                        assert(leaf_holds(root, tail[t - head.len()]));
                    } else {
                        assert(leaf_holds(root, head[t]));
                    }
                }
            }
            if forall|t: int| 0 <= t < all.len() ==> leaf_holds(root, #[trigger] all[t]) {
                assert forall|t: int| 0 <= t < head.len() implies leaf_holds(root, #[trigger] head[t]) by {
                    assert(all[t] == head[t]);
                }
                assert forall|t: int| 0 <= t < tail.len() implies leaf_holds(root, #[trigger] tail[t]) by {
                    assert(all[t + head.len()] == tail[t]);
                }
            }
        }
        assert(head_ok == entry_holds(w, es@[i]));
        assert((forall|t: int| i <= t < cond_width(c) ==> entry_holds(w, #[trigger] es@[t])) == (
        entry_holds(w, es@[i]) && forall|t: int|
            i + 1 <= t < cond_width(c) ==> entry_holds(w, #[trigger] es@[t])));
    } else {
        assert(seg_leaves(c, ps, i) =~= Seq::<(Seq<Seq<char>>, Condition)>::empty());
    }
}

/// Running the filter that a condition compiles to accepts a document
/// exactly when the condition holds of the document itself, for conditions
/// whose keys can name path segments (see `well_keyed`).
#[verifier::rlimit(50)]
pub proof fn lemma_filter_agrees(c: Condition, f: Value, doc: Value)
    requires
        well_keyed(c),
        filter_of(c, f),
    ensures
        accepts(f, doc) == holds(c, doc),
    decreases c,
{
    reveal_strlit("$where");
    reveal_strlit("$not");
    reveal_strlit("$and");
    reveal_strlit("$or");
    reveal_strlit("$eq");
    reveal_strlit("true");
    reveal_strlit("false");
    assert("$where"@.len() == 6 && "$where"@[0] == '$');
    assert("$not"@.len() == 4 && "$not"@[0] == '$' && "$not"@[1] == 'n');
    assert("$and"@.len() == 4 && "$and"@[0] == '$' && "$and"@[1] == 'a');
    assert("$or"@.len() == 3 && "$or"@[0] == '$' && "$or"@[1] == 'o');
    assert("$eq"@.len() == 3 && "$eq"@[0] == '$' && "$eq"@[1] == 'e');
    assert("true"@.len() == 4 && "false"@.len() == 5);
    match c {
        Condition::True => {},
        Condition::False => {},
        Condition::Not(inner) => {
            let g = single_entry(f, "$not"@)->0;
            lemma_filter_agrees(*inner, g, doc);
        },
        Condition::And(cs) => {
            let gs = single_entry(f, "$and"@)->0->Array_0;
            assert(decreases_to!(c => c->And_0));
            assert(decreases_to!(cs => cs@));
            assert forall|i: int| 0 <= i < cs@.len() implies accepts(#[trigger] gs@[i], doc) == holds(
                cs@[i],
                doc,
            ) by {
                assert(decreases_to!(cs@ => cs@[i]));
                lemma_filter_agrees(cs@[i], gs@[i], doc);
            }
            let fo = f->Object_0;
            lemma_entry_decreases(f, 0);
            let g = fo@[0].1;
            assert(decreases_to!(g => g->Array_0));
            assert(decreases_to!(gs => gs@));
            assert forall|i: int| 0 <= i < gs@.len() implies decreases_to!(f => #[trigger] gs@[i]) by {
                assert(decreases_to!(gs@ => gs@[i]));
            }
        },
        Condition::Or(cs) => {
            let gs = single_entry(f, "$or"@)->0->Array_0;
            assert(decreases_to!(c => c->Or_0));
            assert(decreases_to!(cs => cs@));
            assert forall|i: int| 0 <= i < cs@.len() implies accepts(#[trigger] gs@[i], doc) == holds(
                cs@[i],
                doc,
            ) by {
                assert(decreases_to!(cs@ => cs@[i]));
                lemma_filter_agrees(cs@[i], gs@[i], doc);
            }
            let fo = f->Object_0;
            lemma_entry_decreases(f, 0);
            let g = fo@[0].1;
            assert(decreases_to!(g => g->Array_0));
            assert(decreases_to!(gs => gs@));
            assert forall|i: int| 0 <= i < gs@.len() implies decreases_to!(f => #[trigger] gs@[i]) by {
                assert(decreases_to!(gs@ => gs@[i]));
            }
        },
        Condition::Keys(es) => {
            let o = f->Object_0;
            let e0 = Seq::<Seq<char>>::empty();
            let segs = seg_leaves(c, e0, 0);
            let ls = leaves_from(c, None, 0);
            lemma_leaves_dotted(c, e0, 0);
            assert(prefix_of(e0) is None);
            lemma_seg_unique(c, e0, 0);
            lemma_seg_shape(c, e0, 0);
            lemma_leaves_smaller(c, None, 0);
            assert forall|t: int| 0 <= t < ls.len() implies #[trigger] ls[t] == (
                dotted(segs[t].0),
                segs[t].1,
            ) && split_path(ls[t].0) == segs[t].0 by {
                lemma_split_dotted(segs[t].0);
            }
            assert forall|a: int, b: int| 0 <= a < ls.len() && 0 <= b < ls.len() && a != b implies ls[a].0
                != ls[b].0 by {
                assert(split_path(ls[a].0) == segs[a].0);
                assert(split_path(ls[b].0) == segs[b].0);
            }
            lemma_merge_unique(ls);
            assert(filter_leaves(c) == ls);
            assert(o@.len() == ls.len());
            if o@.len() == 1 {
                assert(o@[0].0@ == ls[0].0);
                lemma_dotted_first(segs[0].0);
                assert(key_ok(segs[0].0[0]));
                assert(!is_operator(o@[0].0@));
            }
            assert forall|j: int| 0 <= j < o@.len() implies (match value_at(
                doc,
                split_path((#[trigger] o@[j]).0@),
            ) {
                Some(w) => accepts(o@[j].1, w),
                None => false,
            }) == leaf_holds(doc, segs[j]) by {
                assert(o@[j].0@ == ls[j].0);
                assert(filter_of(ls[j].1, o@[j].1));
                assert(decreases_to!(c => ls[j].1));
                if let Some(w) = value_at(doc, segs[j].0) {
                    lemma_filter_agrees(segs[j].1, o@[j].1, w);
                }
            }
            assert forall|j: int| 0 <= j < o@.len() implies decreases_to!(f => #[trigger] o@[j].1) by {
                lemma_entry_decreases(f, j);
            }
            assert(!(o@.len() == 1 && is_operator(o@[0].0@)));
            assert(accepts(f, doc) == forall|j: int|
                0 <= j < o@.len() ==> match value_at(doc, split_path((#[trigger] o@[j]).0@)) {
                    Some(w) => accepts(o@[j].1, w),
                    None => false,
                });
            assert(accepts(f, doc) == forall|t: int| 0 <= t < segs.len() ==> leaf_holds(doc, #[trigger] segs[t])) by {
                assert forall|t: int| 0 <= t < segs.len() implies leaf_holds(doc, #[trigger] segs[t]) == (match value_at(
                    doc,
                    split_path(o@[t].0@),
                ) {
                    Some(w) => accepts(o@[t].1, w),
                    None => false,
                }) by {}
            }
            assert(value_at(doc, e0) == Some(doc));
            lemma_seg_holds(c, e0, 0, doc, doc);
            assert(decreases_to!(c => c->Keys_0));
            assert(decreases_to!(es => es@));
            assert forall|j: int| 0 <= j < es@.len() implies decreases_to!(c => #[trigger] es@[j].1) by {
                assert(decreases_to!(es@ => es@[j]));
                assert(decreases_to!(es@[j] => es@[j].1));
            }
            assert(holds(c, doc) == forall|t: int| 0 <= t < es@.len() ==> entry_holds(doc, #[trigger] es@[t]));
            assert(accepts(f, doc) == holds(c, doc));
        },
        Condition::Equal(x) => {},
    }
}

} // verus!
