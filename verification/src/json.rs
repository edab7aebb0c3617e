//! Approximate equality of JSON trees, for comparing test expectations:
//! strings may use the `[..]` wildcard, the string `"{...}"` stands for any
//! sub-tree, and arrays compare as bags — each expected element consumes the
//! first remaining actual element it matches.
//!
//! The tree is this crate's own: object entries are held sorted by key (as
//! a canonical JSON map iterates them), and a number is an integer or the
//! raw bits of a binary64 float — two float payloads count as equal exactly
//! when their bits are.

use vstd::prelude::*;

use crate::text::{lines_match, spec_lines_match};

verus! {

/// A JSON number: an integer in decimal range, or a binary64 payload by its
/// bits.
#[derive(Debug, Clone, Copy, PartialEq, Eq, Structural)]
pub enum JsonNum {
    /// A number that fits a signed 64-bit integer.
    Int(i64),
    /// A number that only fits an unsigned 64-bit integer.
    UInt(u64),
    /// The bits of a binary64 float.
    FloatBits(u64),
}

/// A JSON tree.
#[derive(Debug)]
pub enum JsonValue {
    Null,
    Bool(bool),
    Num(JsonNum),
    Str(String),
    Array(Vec<JsonValue>),
    /// Entries sorted by key, each key once.
    Object(Vec<(String, JsonValue)>),
}

/// The mathematical mirror of [`JsonValue`].
pub enum JsonV {
    Null,
    Bool(bool),
    Num(JsonNum),
    Str(Seq<char>),
    Array(Seq<JsonV>),
    Object(Seq<(Seq<char>, JsonV)>),
}

/// The value denoted by a JSON tree.
pub open spec fn json_view(v: JsonValue) -> JsonV
    decreases v,
{
    match v {
        JsonValue::Null => JsonV::Null,
        JsonValue::Bool(b) => JsonV::Bool(b),
        JsonValue::Num(n) => JsonV::Num(n),
        JsonValue::Str(s) => JsonV::Str(s@),
        JsonValue::Array(items) => JsonV::Array(jsons_view(items@)),
        JsonValue::Object(entries) => JsonV::Object(entries_view(entries@)),
    }
}

/// The values of a list of JSON trees.
pub open spec fn jsons_view(s: Seq<JsonValue>) -> Seq<JsonV>
    decreases s,
{
    if s.len() == 0 {
        Seq::empty()
    } else {
        jsons_view(s.drop_last()).push(json_view(s.last()))
    }
}

/// The values of a list of object entries.
pub open spec fn entries_view(s: Seq<(String, JsonValue)>) -> Seq<(Seq<char>, JsonV)>
    decreases s,
{
    if s.len() == 0 {
        Seq::empty()
    } else {
        entries_view(s.drop_last()).push((s.last().0@, json_view(s.last().1)))
    }
}

impl View for JsonValue {
    type V = JsonV;

    open spec fn view(&self) -> JsonV {
        json_view(*self)
    }
}

/// The wildcard that stands for any sub-tree.
pub open spec fn any_tree_seq() -> Seq<char> {
    seq!['{', '.', '.', '.', '}']
}

/// Where no positive arm applies: the `"{...}"` wildcard stands for any
/// sub-tree; everything else is a mismatch.
pub open spec fn spec_wild_or_mismatch(e: JsonV, a: JsonV) -> Option<(JsonV, JsonV)> {
    if e matches JsonV::Str(l) && l == any_tree_seq() {
        None
    } else {
        Some((e, a))
    }
}

/// The first mismatching pair under `e` and `a`, if the two do not match.
pub open spec fn spec_find_mismatch(e: JsonV, a: JsonV) -> Option<(JsonV, JsonV)>
    decreases e, a, 0int,
{
    match (e, a) {
        (JsonV::Num(l), JsonV::Num(r)) => if l == r {
            None
        } else {
            spec_wild_or_mismatch(e, a)
        },
        (JsonV::Bool(l), JsonV::Bool(r)) => if l == r {
            None
        } else {
            spec_wild_or_mismatch(e, a)
        },
        (JsonV::Str(l), JsonV::Str(r)) => if spec_lines_match(l, r) {
            None
        } else {
            spec_wild_or_mismatch(e, a)
        },
        (JsonV::Array(l), JsonV::Array(r)) => {
            if l.len() != r.len() {
                Some((e, a))
            } else {
                let matched = spec_match_arrays(l, r);
                if matched.0.len() > 0 {
                    Some((matched.0[0], matched.1[0]))
                } else {
                    None
                }
            }
        },
        (JsonV::Object(l), JsonV::Object(r)) => {
            if !(l.len() == r.len() && spec_keys_covered(l, r)) {
                Some((e, a))
            } else {
                spec_mismatch_entries(l, r)
            }
        },
        (JsonV::Null, JsonV::Null) => None,
        _ => spec_wild_or_mismatch(e, a),
    }
}

/// Whether some entry of `r` bears `key`.
pub open spec fn spec_has_key(r: Seq<(Seq<char>, JsonV)>, key: Seq<char>) -> bool {
    exists|j: int| 0 <= j < r.len() && (#[trigger] r[j]).0 == key
}

/// Whether every key of `l` appears among the keys of `r`.
pub open spec fn spec_keys_covered(l: Seq<(Seq<char>, JsonV)>, r: Seq<(Seq<char>, JsonV)>) -> bool {
    forall|i: int| 0 <= i < l.len() ==> spec_has_key(r, (#[trigger] l[i]).0)
}

/// The greedy bag matching of two arrays: each expected element consumes
/// the first remaining actual element it matches; what finds no partner
/// stays behind, on both sides.
pub open spec fn spec_match_arrays(l: Seq<JsonV>, r: Seq<JsonV>) -> (Seq<JsonV>, Seq<JsonV>)
    decreases l, r, 2int,
{
    if l.len() == 0 {
        (Seq::empty(), r)
    } else {
        match spec_first_match(l[0], r) {
            Some(k) => spec_match_arrays(l.drop_first(), r.remove(k)),
            None => {
                let rest = spec_match_arrays(l.drop_first(), r);
                (seq![l[0]] + rest.0, rest.1)
            },
        }
    }
}

/// The first element of `r` that `e` matches, if any.
pub open spec fn spec_first_match(e: JsonV, r: Seq<JsonV>) -> Option<int>
    decreases e, r, 1int,
{
    if r.len() == 0 {
        None
    } else if spec_find_mismatch(e, r[0]) is None {
        Some(0)
    } else {
        match spec_first_match(e, r.drop_first()) {
            Some(k) => Some(k + 1),
            None => None,
        }
    }
}

/// The first mismatch among aligned object values, if any.
pub open spec fn spec_mismatch_entries(
    l: Seq<(Seq<char>, JsonV)>,
    r: Seq<(Seq<char>, JsonV)>,
) -> Option<(JsonV, JsonV)>
    decreases l, r, 2int,
{
    if l.len() == 0 || r.len() == 0 {
        None
    } else {
        match spec_find_mismatch(l[0].1, r[0].1) {
            Some(m) => Some(m),
            None => spec_mismatch_entries(l.drop_first(), r.drop_first()),
        }
    }
}

/// A found partner lies within the list.
proof fn lemma_first_match_bound(e: JsonV, r: Seq<JsonV>)
    requires
        spec_first_match(e, r) is Some,
    ensures
        0 <= spec_first_match(e, r)->0 < r.len(),
    decreases r.len(),
{
    if r.len() > 0 && !(spec_find_mismatch(e, r[0]) is None) {
        if spec_first_match(e, r.drop_first()) is Some {
            lemma_first_match_bound(e, r.drop_first());
        }
    }
}

/// Matching leaves equally many strays on both sides when the arrays have
/// the same length: what stays on the right is the right's length less the
/// number of matched elements.
proof fn lemma_match_arrays_lens(l: Seq<JsonV>, r: Seq<JsonV>)
    ensures
        spec_match_arrays(l, r).0.len() <= l.len(),
        spec_match_arrays(l, r).1.len() == r.len() - l.len() + spec_match_arrays(l, r).0.len(),
    decreases l.len(),
{
    if l.len() > 0 {
        match spec_first_match(l[0], r) {
            Some(k) => {
                lemma_first_match_bound(l[0], r);
                lemma_match_arrays_lens(l.drop_first(), r.remove(k));
            },
            None => {
                lemma_match_arrays_lens(l.drop_first(), r);
            },
        }
    }
}

/// The value of a JSON list is the list of the values.
pub proof fn lemma_jsons_view_index(s: Seq<JsonValue>, i: int)
    requires
        0 <= i < s.len(),
    ensures
        jsons_view(s).len() == s.len(),
        jsons_view(s)[i] == json_view(s[i]),
    decreases s,
{
    lemma_jsons_view_len(s);
    if i < s.len() - 1 {
        lemma_jsons_view_index(s.drop_last(), i);
    }
}

/// The value of a JSON list has the list's length.
pub proof fn lemma_jsons_view_len(s: Seq<JsonValue>)
    ensures
        jsons_view(s).len() == s.len(),
    decreases s,
{
    if s.len() > 0 {
        lemma_jsons_view_len(s.drop_last());
    }
}

/// The value of an entry list is the list of the entry values.
pub proof fn lemma_entries_view_index(s: Seq<(String, JsonValue)>, i: int)
    requires
        0 <= i < s.len(),
    ensures
        entries_view(s).len() == s.len(),
        entries_view(s)[i] == (s[i].0@, json_view(s[i].1)),
    decreases s,
{
    lemma_entries_view_len(s);
    if i < s.len() - 1 {
        lemma_entries_view_index(s.drop_last(), i);
    }
}

/// The value of an entry list has the list's length.
pub proof fn lemma_entries_view_len(s: Seq<(String, JsonValue)>)
    ensures
        entries_view(s).len() == s.len(),
    decreases s,
{
    if s.len() > 0 {
        lemma_entries_view_len(s.drop_last());
    }
}

/// Clones every tree of a list.
fn jsons_clone(v: &Vec<JsonValue>) -> (r: Vec<JsonValue>)
    ensures
        jsons_view(r@) == jsons_view(v@),
        r@.len() == v@.len(),
    decreases v@,
{
    let mut r: Vec<JsonValue> = Vec::new();
    let mut i: usize = 0;
    while i < v.len()
        invariant
            i <= v@.len(),
            r@.len() == i,
            forall|j: int| 0 <= j < i ==> json_view(#[trigger] r@[j]) == json_view(v@[j]),
        decreases v@.len() - i,
    {
        let c = json_clone(&v[i]);
        r.push(c);
        i = i + 1;
    }
    proof {
        lemma_jsons_view_len(r@);
        lemma_jsons_view_len(v@);
        assert forall|j: int| 0 <= j < r@.len() implies jsons_view(r@)[j] == jsons_view(v@)[j] by {
            lemma_jsons_view_index(r@, j);
            lemma_jsons_view_index(v@, j);
        }
        assert(jsons_view(r@) =~= jsons_view(v@));
    }
    r
}

/// Clones every entry of an object.
fn entries_clone(v: &Vec<(String, JsonValue)>) -> (r: Vec<(String, JsonValue)>)
    ensures
        entries_view(r@) == entries_view(v@),
    decreases v@,
{
    let mut r: Vec<(String, JsonValue)> = Vec::new();
    let mut i: usize = 0;
    while i < v.len()
        invariant
            i <= v@.len(),
            r@.len() == i,
            forall|j: int| 0 <= j < i ==> ((#[trigger] r@[j]).0@ == v@[j].0@ && json_view(r@[j].1)
                == json_view(v@[j].1)),
        decreases v@.len() - i,
    {
        let key = v[i].0.clone();
        let val = json_clone(&v[i].1);
        r.push((key, val));
        i = i + 1;
    }
    proof {
        lemma_entries_view_len(r@);
        lemma_entries_view_len(v@);
        assert forall|j: int| 0 <= j < r@.len() implies entries_view(r@)[j] == entries_view(
            v@,
        )[j] by {
            lemma_entries_view_index(r@, j);
            lemma_entries_view_index(v@, j);
        }
        assert(entries_view(r@) =~= entries_view(v@));
    }
    r
}

/// Clones a tree; the copy denotes the same value.
pub fn json_clone(v: &JsonValue) -> (r: JsonValue)
    ensures
        r@ == v@,
    decreases *v,
{
    match v {
        JsonValue::Null => JsonValue::Null,
        JsonValue::Bool(b) => JsonValue::Bool(*b),
        JsonValue::Num(n) => JsonValue::Num(*n),
        JsonValue::Str(s) => JsonValue::Str(s.clone()),
        JsonValue::Array(items) => JsonValue::Array(jsons_clone(items)),
        JsonValue::Object(entries) => JsonValue::Object(entries_clone(entries)),
    }
}

/// Whether every key of `l` appears among the keys of `r`.
fn keys_covered(l: &Vec<(String, JsonValue)>, r: &Vec<(String, JsonValue)>) -> (ok: bool)
    ensures
        ok == spec_keys_covered(entries_view(l@), entries_view(r@)),
{
    proof {
        lemma_entries_view_len(l@);
        lemma_entries_view_len(r@);
    }
    let mut i: usize = 0;
    while i < l.len()
        invariant
            i <= l@.len(),
            entries_view(l@).len() == l@.len(),
            entries_view(r@).len() == r@.len(),
            forall|x: int| 0 <= x < i ==> spec_has_key(
                entries_view(r@),
                (#[trigger] entries_view(l@)[x]).0,
            ),
        decreases l@.len() - i,
    {
        let mut found = false;
        let mut j: usize = 0;
        while j < r.len() && !found
            invariant
                i < l@.len(),
                j <= r@.len(),
                entries_view(l@).len() == l@.len(),
                entries_view(r@).len() == r@.len(),
                found ==> spec_has_key(entries_view(r@), entries_view(l@)[i as int].0),
                !found ==> forall|y: int| 0 <= y < j ==> (#[trigger] entries_view(r@)[y]).0
                    != entries_view(l@)[i as int].0,
            decreases r@.len() - j + (if found {
                0int
            } else {
                1int
            }),
        {
            proof {
                lemma_entries_view_index(l@, i as int);
                lemma_entries_view_index(r@, j as int);
            }
            if l[i].0.eq(&r[j].0) {
                found = true;
                proof {
                    assert((entries_view(r@)[j as int]).0 == entries_view(l@)[i as int].0);
                }
            } else {
                j = j + 1;
            }
        }
        if !found {
            proof {
                let lv = entries_view(l@);
                let rv = entries_view(r@);
                assert(forall|y: int| 0 <= y < rv.len() ==> (#[trigger] rv[y]).0
                    != lv[i as int].0);
                assert(!spec_has_key(rv, lv[i as int].0)) by {
                    if spec_has_key(rv, lv[i as int].0) {
                        let j2 = choose|j2: int|
                            0 <= j2 < rv.len() && (#[trigger] rv[j2]).0 == lv[i as int].0;
                        assert(false);
                    }
                }
                assert(!spec_keys_covered(lv, rv));
            }
            return false;
        }
        i = i + 1;
    }
    true
}

/// The first element of `r` that `e` matches, if any.
fn first_match(e: &JsonValue, r: &Vec<JsonValue>) -> (k: Option<usize>)
    ensures
        k is Some <==> spec_first_match(e@, jsons_view(r@)) is Some,
        k is Some ==> Some(k->0 as int) == spec_first_match(e@, jsons_view(r@)),
        k is Some ==> (k->0 as int) < r@.len(),
    decreases *e, r@, 1int,
{
    let ghost rv = jsons_view(r@);
    proof {
        lemma_jsons_view_len(r@);
        assert(rv.skip(0) =~= rv);
    }
    let mut j: usize = 0;
    while j < r.len()
        invariant
            rv == jsons_view(r@),
            rv.len() == r@.len(),
            j <= r@.len(),
            spec_first_match(e@, rv) == (match spec_first_match(e@, rv.skip(j as int)) {
                Some(k) => Some(j + k),
                None => None::<int>,
            }),
        decreases r@.len() - j,
    {
        proof {
            lemma_jsons_view_index(r@, j as int);
            assert(rv.skip(j as int)[0] == rv[j as int]);
            assert(rv.skip(j as int).drop_first() =~= rv.skip(j as int + 1));
        }
        let m = find_mismatch(e, &r[j]);
        if m.is_none() {
            return Some(j);
        }
        j = j + 1;
    }
    proof {
        assert(rv.skip(j as int).len() == 0);
    }
    None
}

/// Compares two JSON trees for approximate equality: `None` when they
/// match; otherwise the first mismatching pair, innermost first. Strings
/// compare with the `[..]` wildcard; the string `"{...}"` matches any
/// sub-tree; arrays compare as bags.
pub fn find_mismatch(expected: &JsonValue, actual: &JsonValue) -> (r: Option<
    (JsonValue, JsonValue),
>)
    ensures
        r is Some <==> spec_find_mismatch(expected@, actual@) is Some,
        r is Some ==> ((r->0).0@, (r->0).1@) == spec_find_mismatch(expected@, actual@)->0,
    decreases *expected, *actual, 0int,
{
    let positive: bool = match (expected, actual) {
        (JsonValue::Num(l), JsonValue::Num(r)) => l == r,
        (JsonValue::Bool(l), JsonValue::Bool(r)) => l == r,
        (JsonValue::Str(l), JsonValue::Str(r)) => lines_match(l.as_str(), r.as_str()),
        _ => false,
    };
    if positive {
        return None;
    }
    match (expected, actual) {
        (JsonValue::Array(l), JsonValue::Array(r)) => {
            proof {
                lemma_jsons_view_len(l@);
                lemma_jsons_view_len(r@);
            }
            if l.len() != r.len() {
                return Some((json_clone(expected), json_clone(actual)));
            }
            let ghost lv = jsons_view(l@);
            let ghost rv0 = jsons_view(r@);
            let mut r_rem = jsons_clone(r);
            let mut l_left: Vec<JsonValue> = Vec::new();
            let mut li: usize = 0;
            proof {
                assert(lv.skip(0) =~= lv);
                assert(jsons_view(l_left@) =~= Seq::<JsonV>::empty());
                assert(Seq::<JsonV>::empty() + spec_match_arrays(lv.skip(0), jsons_view(r_rem@)).0
                    =~= spec_match_arrays(lv, rv0).0);
            }
            while li < l.len()
                invariant
                    *expected == JsonValue::Array(*l),
                    lv == jsons_view(l@),
                    rv0 == jsons_view(r@),
                    lv.len() == l@.len(),
                    li <= l@.len(),
                    spec_match_arrays(lv, rv0).0 == jsons_view(l_left@) + spec_match_arrays(
                        lv.skip(li as int),
                        jsons_view(r_rem@),
                    ).0,
                    spec_match_arrays(lv, rv0).1 == spec_match_arrays(
                        lv.skip(li as int),
                        jsons_view(r_rem@),
                    ).1,
                decreases l@.len() - li,
            {
                let ghost rrv = jsons_view(r_rem@);
                let ghost llv = jsons_view(l_left@);
                proof {
                    lemma_jsons_view_index(l@, li as int);
                    lemma_jsons_view_len(r_rem@);
                    assert(lv.skip(li as int)[0] == lv[li as int]);
                    assert(lv.skip(li as int).drop_first() =~= lv.skip(li as int + 1));
                    assert(expected->Array_0 == *l);
                    assert(decreases_to!(*expected => expected->Array_0));
                    assert(decreases_to!(expected->Array_0 => expected->Array_0@));
                    assert(decreases_to!(expected->Array_0@ => expected->Array_0@[li as int]));
                    assert(l@[li as int] == expected->Array_0@[li as int]);
                }
                match first_match(&l[li], &r_rem) {
                    Some(k) => {
                        let ghost prev = r_rem@;
                        let ghost kk = spec_first_match(lv[li as int], rrv)->0;
                        r_rem.remove(k);
                        proof {
                            lemma_first_match_bound(lv[li as int], rrv);
                            lemma_jsons_view_len(r_rem@);
                            lemma_jsons_view_len(prev);
                            assert forall|x: int| 0 <= x < jsons_view(r_rem@).len() implies
                                jsons_view(r_rem@)[x] == rrv.remove(kk)[x] by {
                                lemma_jsons_view_index(r_rem@, x);
                                if x < kk {
                                    lemma_jsons_view_index(prev, x);
                                } else {
                                    lemma_jsons_view_index(prev, x + 1);
                                }
                            }
                            assert(jsons_view(r_rem@) =~= rrv.remove(kk));
                            assert(spec_match_arrays(lv.skip(li as int), rrv)
                                == spec_match_arrays(lv.skip(li as int + 1), rrv.remove(kk)));
                        }
                    },
                    None => {
                        let c = json_clone(&l[li]);
                        let ghost pre_ll = l_left@;
                        l_left.push(c);
                        proof {
                            assert(l_left@.drop_last() =~= pre_ll);
                            assert(jsons_view(l_left@) == jsons_view(l_left@.drop_last()).push(
                                json_view(l_left@.last()),
                            ));
                            assert(jsons_view(l_left@) =~= llv.push(lv[li as int]));
                            assert(spec_match_arrays(lv.skip(li as int), rrv) == (seq![lv[
                                li as int]] + spec_match_arrays(lv.skip(li as int + 1), rrv).0,
                            spec_match_arrays(lv.skip(li as int + 1), rrv).1));
                            assert(llv + (seq![lv[li as int]] + spec_match_arrays(
                                lv.skip(li as int + 1),
                                rrv,
                            ).0) =~= jsons_view(l_left@) + spec_match_arrays(
                                lv.skip(li as int + 1),
                                rrv,
                            ).0);
                        }
                    },
                }
                li = li + 1;
            }
            proof {
                assert(lv.skip(lv.len() as int).len() == 0);
                assert(spec_match_arrays(lv.skip(lv.len() as int), jsons_view(r_rem@)).0
                    =~= Seq::<JsonV>::empty());
                assert(jsons_view(l_left@) + Seq::<JsonV>::empty() =~= jsons_view(l_left@));
                lemma_jsons_view_len(l_left@);
                lemma_jsons_view_len(r_rem@);
                lemma_match_arrays_lens(lv, jsons_view(r@));
            }
            if l_left.len() > 0 {
                proof {
                    lemma_jsons_view_index(l_left@, 0);
                    lemma_jsons_view_index(r_rem@, 0);
                }
                Some((json_clone(&l_left[0]), json_clone(&r_rem[0])))
            } else {
                None
            }
        },
        (JsonValue::Object(l), JsonValue::Object(r)) => {
            proof {
                lemma_entries_view_len(l@);
                lemma_entries_view_len(r@);
            }
            if !(l.len() == r.len() && keys_covered(l, r)) {
                return Some((json_clone(expected), json_clone(actual)));
            }
            let ghost lv = entries_view(l@);
            let ghost rv = entries_view(r@);
            let mut i: usize = 0;
            proof {
                assert(lv.skip(0) =~= lv);
                assert(rv.skip(0) =~= rv);
            }
            while i < l.len()
                invariant
                    *expected == JsonValue::Object(*l),
                    lv == entries_view(l@),
                    rv == entries_view(r@),
                    lv.len() == l@.len(),
                    rv.len() == r@.len(),
                    l@.len() == r@.len(),
                    i <= l@.len(),
                    spec_mismatch_entries(lv.skip(i as int), rv.skip(i as int))
                        == spec_mismatch_entries(lv, rv),
                    spec_find_mismatch(expected@, actual@) == spec_mismatch_entries(lv, rv),
                decreases l@.len() - i,
            {
                proof {
                    lemma_entries_view_index(l@, i as int);
                    lemma_entries_view_index(r@, i as int);
                    assert(lv.skip(i as int)[0] == lv[i as int]);
                    assert(rv.skip(i as int)[0] == rv[i as int]);
                    assert(lv.skip(i as int).drop_first() =~= lv.skip(i as int + 1));
                    assert(rv.skip(i as int).drop_first() =~= rv.skip(i as int + 1));
                    assert(expected->Object_0 == *l);
                    assert(decreases_to!(*expected => expected->Object_0));
                    assert(decreases_to!(expected->Object_0 => expected->Object_0@));
                    assert(decreases_to!(expected->Object_0@ => expected->Object_0@[i as int]));
                    assert(decreases_to!(expected->Object_0@[i as int] => expected->Object_0@[i as int].1));
                    assert(l@[i as int].1 == expected->Object_0@[i as int].1);
                }
                let m = find_mismatch(&l[i].1, &r[i].1);
                match m {
                    Some(pair) => {
                        return Some(pair);
                    },
                    None => {},
                }
                i = i + 1;
            }
            proof {
                assert(lv.skip(i as int).len() == 0);
            }
            None
        },
        (JsonValue::Null, JsonValue::Null) => None,
        _ => {
            let is_any_tree: bool = match expected {
                JsonValue::Str(l) => {
                    proof {
                        reveal_strlit("{...}");
                    }
                    let any = crate::text::str_chars("{...}");
                    let lc = crate::text::str_chars(l.as_str());
                    proof {
                        assert(any@ =~= any_tree_seq());
                    }
                    let mut eq = lc.len() == any.len();
                    let mut x: usize = 0;
                    while x < lc.len() && x < any.len() && eq
                        invariant
                            lc@ == l@,
                            any@ == any_tree_seq(),
                            x <= lc@.len(),
                            x <= any@.len(),
                            eq ==> (lc@.len() == any@.len() && forall|y: int|
                                0 <= y < x ==> lc@[y] == any@[y]),
                            !eq ==> l@ != any_tree_seq(),
                        decreases lc@.len() - x + (if eq {
                            1int
                        } else {
                            0int
                        }),
                    {
                        if lc[x] != any[x] {
                            eq = false;
                        } else {
                            x = x + 1;
                        }
                    }
                    proof {
                        if eq {
                            assert(l@ =~= any_tree_seq());
                        }
                    }
                    eq
                },
                _ => false,
            };
            if is_any_tree {
                None
            } else {
                Some((json_clone(expected), json_clone(actual)))
            }
        },
    }
}

} // verus!
