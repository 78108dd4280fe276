//! The in-memory reference store, and the decision that every driver's
//! single-record read makes on what a limited read returned.

use std::cmp::Ordering;

use vstd::prelude::*;

use crate::entries::{entries_view, lemma_find_key, lookup, position, put};
use crate::error::{Error, ErrorCode, ErrorView};
use crate::query::{
    compare_by_rules, holds, lemma_rules_cmp_antisymmetric, rules_cmp, sorts_view, window_end,
    window_start, Condition, Range, Sort, SortView,
};
use crate::value::Value;

verus! {

broadcast use vstd::std_specs::vec::group_vec_axioms;

/// The values of a sequence that a condition holds of, in order.
pub open spec fn kept(c: Condition, s: Seq<Value>) -> Seq<Value>
    decreases s.len(),
{
    if s.len() == 0 {
        Seq::empty()
    } else if holds(c, s.last()) {
        kept(c, s.drop_last()).push(s.last())
    } else {
        kept(c, s.drop_last())
    }
}

/// The values that some references point to.
pub open spec fn derefs(r: Seq<&Value>) -> Seq<Value> {
    r.map_values(|x: &Value| *x)
}

/// Whether `s` is `f` rearranged: `pi[k]` is the position in `f` of `s[k]`,
/// and no position is used twice.
pub open spec fn arranges(f: Seq<Value>, s: Seq<Value>, pi: Seq<int>) -> bool {
    &&& s.len() == f.len()
    &&& pi.len() == s.len()
    &&& forall|k: int| 0 <= k < s.len() ==> 0 <= #[trigger] pi[k] < f.len() && s[k] == f[pi[k]]
    &&& forall|k: int, l: int| 0 <= k < s.len() && 0 <= l < s.len() && k != l ==> pi[k] != pi[l]
}

/// Whether a rearrangement is in the order of the rules: no value comes
/// after its successor, and neighbours that the rules leave tied keep their
/// input order.
pub open spec fn in_rule_order(rules: Seq<SortView>, s: Seq<Value>, pi: Seq<int>) -> bool {
    forall|k: int|
        0 <= k < s.len() - 1 ==> rules_cmp(rules, s[k], #[trigger] s[k + 1]) != Ordering::Greater && (
        rules_cmp(rules, s[k], s[k + 1]) == Ordering::Equal ==> pi[k] < pi[k + 1])
}

/// Whether `r` is what a read with a condition, sort rules and a range
/// returns from `records`: the records that the condition holds of,
/// rearranged into the order of the rules with ties kept in input order,
/// then the window of the range over them.
pub open spec fn is_selection(
    records: Seq<Value>,
    c: Condition,
    rules: Seq<SortView>,
    range: crate::query::RangeView,
    r: Seq<Value>,
) -> bool {
    exists|s: Seq<Value>, pi: Seq<int>|
        #[trigger] arranges(kept(c, records), s, pi) && in_rule_order(rules, s, pi) && r
            == s.subrange(
            window_start(range, s.len()) as int,
            window_end(range, s.len()) as int,
        )
}

/// Puts references to values in the order of the rules, stably: each value
/// is placed after the last one that does not come after it.
#[verifier::rlimit(50)]
fn sort_refs<'a>(items: Vec<&'a Value>, rules: &Vec<Sort>) -> (r: Vec<&'a Value>)
    ensures
        exists|pi: Seq<int>|
            #[trigger] arranges(derefs(items@), derefs(r@), pi) && in_rule_order(
                sorts_view(rules@),
                derefs(r@),
                pi,
            ),
{
    let ghost rv = sorts_view(rules@);
    let ghost f = derefs(items@);
    let mut out: Vec<&'a Value> = Vec::new();
    let ghost mut pi: Seq<int> = Seq::empty();
    let mut i: usize = 0;
    while i < items.len()
        invariant
            i <= items@.len(),
            rv == sorts_view(rules@),
            f == derefs(items@),
            pi.len() == out@.len(),
            out@.len() == i,
            forall|k: int|
                0 <= k < out@.len() ==> 0 <= #[trigger] pi[k] < i && derefs(out@)[k] == f[pi[k]],
            forall|k: int, l: int| 0 <= k < out@.len() && 0 <= l < out@.len() && k != l ==> pi[k] != pi[l],
            in_rule_order(rv, derefs(out@), pi),
        decreases items@.len() - i,
    {
        let x = items[i];
        let mut j = out.len();
        loop
            invariant
                j <= out@.len(),
                rv == sorts_view(rules@),
                forall|k: int| j <= k < out@.len() ==> rules_cmp(rv, *out@[k], *x) == Ordering::Greater,
            ensures
                j <= out@.len(),
                forall|k: int| j <= k < out@.len() ==> rules_cmp(rv, *out@[k], *x) == Ordering::Greater,
                j == 0 || rules_cmp(rv, *out@[j - 1], *x) != Ordering::Greater,
            decreases j,
        {
            if j == 0 {
                break;
            }
            match compare_by_rules(rules, out[j - 1], x) {
                Ordering::Greater => {
                    j = j - 1;
                },
                _ => {
                    break;
                },
            }
        }
        let ghost o = derefs(out@);
        let ghost oo = out@;
        let ghost op = pi;
        proof {
            assert(f[i as int] == *x);
            if j < o.len() {
                assert(o[j as int] == *oo[j as int]);
                assert(rules_cmp(rv, o[j as int], *x) == Ordering::Greater);
                lemma_rules_cmp_antisymmetric(rv, o[j as int], *x);
            }
            if j > 0 {
                assert(o[j - 1] == *oo[j - 1]);
                assert(rules_cmp(rv, o[j - 1], *x) != Ordering::Greater);
            }
        }
        out.insert(j, x);
        proof {
            pi = op.insert(j as int, i as int);
            let n = derefs(out@);
            assert(n =~= o.insert(j as int, *x));
            assert forall|k: int| 0 <= k < out@.len() implies 0 <= #[trigger] pi[k] < i + 1 && derefs(out@)[k]
                == f[pi[k]] by {
                if k < j {
                    assert(pi[k] == op[k] && n[k] == o[k]);
                } else if k > j {
                    assert(pi[k] == op[k - 1] && n[k] == o[k - 1]);
                }
            }
            assert forall|k: int, l: int| 0 <= k < out@.len() && 0 <= l < out@.len() && k != l implies pi[k]
                != pi[l] by {
                if k != j && l != j {
                    let kk = if k < j { k } else { k - 1 };
                    let ll = if l < j { l } else { l - 1 };
                    assert(pi[k] == op[kk] && pi[l] == op[ll]);
                } else if k == j {
                    let ll = if l < j { l } else { l - 1 };
                    assert(pi[l] == op[ll]);
                } else {
                    let kk = if k < j { k } else { k - 1 };
                    assert(pi[k] == op[kk]);
                }
            }
            assert forall|k: int| 0 <= k < n.len() - 1 implies rules_cmp(rv, n[k], #[trigger] n[k + 1])
                != Ordering::Greater && (rules_cmp(rv, n[k], n[k + 1]) == Ordering::Equal ==> pi[k] < pi[k
                + 1]) by {
                if k + 1 < j {
                    assert(n[k] == o[k] && n[k + 1] == o[k + 1]);
                    assert(pi[k] == op[k] && pi[k + 1] == op[k + 1]);
                    assert(rules_cmp(rv, o[k], o[k + 1]) != Ordering::Greater);
                } else if k + 1 == j {
                    assert(n[k] == o[k] && n[k + 1] == *x);
                    assert(pi[k] == op[k] && pi[k + 1] == i);
                } else if k == j {
                    assert(n[k] == *x && n[k + 1] == o[k]);
                } else {
                    assert(n[k] == o[k - 1] && n[k + 1] == o[k]);
                    assert(pi[k] == op[k - 1] && pi[k + 1] == op[k]);
                    assert(rules_cmp(rv, o[k - 1], o[(k - 1) + 1]) != Ordering::Greater);
                }
            }
        }
        i = i + 1;
    }
    proof {
        assert(arranges(f, derefs(out@), pi));
    }
    out
}

/// Selects from `records` what a read returns (see `is_selection`).
#[verifier::rlimit(50)]
pub fn select<'a>(
    records: &'a Vec<Value>,
    condition: &Condition,
    rules: &Vec<Sort>,
    range: &Range,
) -> (r: Vec<&'a Value>)
    ensures
        is_selection(records@, *condition, sorts_view(rules@), range@, derefs(r@)),
{
    let mut matching: Vec<&'a Value> = Vec::new();
    let mut i: usize = 0;
    proof {
        assert(derefs(matching@) =~= kept(*condition, records@.subrange(0, 0)));
    }
    while i < records.len()
        invariant
            i <= records@.len(),
            derefs(matching@) == kept(*condition, records@.subrange(0, i as int)),
        decreases records@.len() - i,
    {
        let upto = i + 1;
        proof {
            let s = records@.subrange(0, upto as int);
            assert(s.drop_last() =~= records@.subrange(0, i as int));
            assert(s.last() == records@[i as int]);
        }
        if condition.is_true(&records[i]) {
            matching.push(&records[i]);
            proof {
                assert(derefs(matching@) =~= kept(*condition, records@.subrange(0, upto as int)));
            }
        }
        i = i + 1;
    }
    proof {
        assert(records@.subrange(0, i as int) =~= records@);
    }
    let sorted = sort_refs(matching, rules);
    let ghost s = derefs(sorted@);
    let ghost pi = choose|pi: Seq<int>|
        #[trigger] arranges(derefs(matching@), s, pi) && in_rule_order(sorts_view(rules@), s, pi);
    let r = range.slice(sorted);
    proof {
        assert(derefs(r@) =~= s.subrange(
            window_start(range@, s.len()) as int,
            window_end(range@, s.len()) as int,
        ));
        assert(arranges(kept(*condition, records@), s, pi));
    }
    r
}

/// A store that keeps every collection in memory, by name. Meant for tests
/// and development: a collaborator that shares it between callers must
/// serialize all access to it.
#[derive(Debug)]
pub struct Memory {
    store: Vec<(String, Vec<Value>)>,
}

impl View for Memory {
    type V = Seq<(String, Vec<Value>)>;

    closed spec fn view(&self) -> Seq<(String, Vec<Value>)> {
        self.store@
    }
}

/// The records of a collection: none for a collection that does not exist.
pub open spec fn records_of(m: Seq<(String, Vec<Value>)>, name: Seq<char>) -> Seq<Value> {
    match lookup(m, name) {
        Some(v) => v@,
        None => Seq::empty(),
    }
}

impl Memory {
    /// An empty store.
    pub fn new() -> (r: Memory)
        ensures
            r@ == Seq::<(String, Vec<Value>)>::empty(),
    {
        Memory { store: Vec::new() }
    }

    /// Moves `objects` to the end of the collection `name`, creating it if
    /// it does not exist.
    pub fn append_to_collection(&mut self, name: &str, objects: &mut Vec<Value>)
        ensures
            final(objects)@ == Seq::<Value>::empty(),
            exists|recs: Vec<Value>|
                recs@ == records_of(old(self)@, name@) + old(objects)@ && entries_view(final(self)@)
                    == put(old(self)@, name@, recs),
    {
        match position(&self.store, name) {
            Some(i) => {
                proof {
                    lemma_find_key(self@, name@);
                }
                let (k, mut recs) = self.store.remove(i);
                recs.append(objects);
                let ghost r = recs;
                self.store.insert(i, (k, recs));
                proof {
                    assert(entries_view(self@) =~= put(old(self)@, name@, r));
                }
            },
            None => {
                let mut recs: Vec<Value> = Vec::new();
                recs.append(objects);
                let ghost r = recs;
                self.store.push((name.to_owned(), recs));
                proof {
                    assert(r@ =~= records_of(old(self)@, name@) + old(objects)@);
                    assert(entries_view(self@) =~= put(old(self)@, name@, r));
                }
            },
        }
    }

    /// Reads the collection `name`: the records that the condition holds
    /// of, in the order of the sort rules, in the window of the range (see
    /// `is_selection`). A collection that does not exist reads as empty.
    pub fn read(&self, name: &str, condition: &Condition, rules: &Vec<Sort>, range: &Range) -> (r: Vec<
        &Value,
    >)
        ensures
            is_selection(records_of(self@, name@), *condition, sorts_view(rules@), range@, derefs(r@)),
    {
        match position(&self.store, name) {
            Some(i) => {
                proof {
                    lemma_find_key(self@, name@);
                }
                select(&self.store[i].1, condition, rules, range)
            },
            None => {
                let r: Vec<&Value> = Vec::new();
                proof {
                    let s = Seq::<Value>::empty();
                    assert(records_of(self@, name@) =~= s);
                    assert(kept(*condition, s) =~= s);
                    assert(derefs(r@) =~= s.subrange(
                        window_start(range@, 0) as int,
                        window_end(range@, 0) as int,
                    ));
                    let pi = Seq::<int>::empty();
                    assert(arranges(kept(*condition, records_of(self@, name@)), s, pi)
                        && in_rule_order(sorts_view(rules@), s, pi) && derefs(r@) == s.subrange(
                        window_start(range@, s.len()) as int,
                        window_end(range@, s.len()) as int,
                    ));
                }
                r
            },
        }
    }
}

/// The error of a single-record read that found nothing.
pub open spec fn none_found_error() -> ErrorView {
    ErrorView {
        code: ErrorCode::NotFound,
        message: "No value was found for the condition."@,
        hint: None,
    }
}

/// The error of a single-record read to which a driver returned more than
/// one record despite the limit of one.
pub open spec fn too_many_error() -> ErrorView {
    ErrorView {
        code: ErrorCode::Internal,
        message: "Read with a limit of one returned more than one value."@,
        hint: None,
    }
}

/// Decides a single-record read from what a read limited to one record
/// returned: the record when there is exactly one, `NotFound` for none, and
/// `Internal` for more than one, which breaks the driver's contract.
pub fn single_record(records: Vec<Value>) -> (r: Result<Value, Error>)
    ensures
        records@.len() == 0 ==> (r matches Err(e) && e@ == none_found_error()),
        records@.len() == 1 ==> r == Ok::<Value, Error>(records@[0]),
        records@.len() >= 2 ==> (r matches Err(e) && e@ == too_many_error()),
{
    let mut records = records;
    if records.len() == 0 {
        Err(Error::not_found(String::from_str("No value was found for the condition.")))
    } else if records.len() == 1 {
        Ok(records.remove(0))
    } else {
        Err(Error::internal(String::from_str("Read with a limit of one returned more than one value.")))
    }
}

} // verus!
