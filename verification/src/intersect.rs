//! Deep "is subset of" matching for JSON-shaped data and flat string maps.

use vstd::prelude::*;
use crate::json::{arr_view, obj_get, obj_lookup, pairs_view, Value, ValueV};
use crate::strmap::{sm_get, StringMap};
use crate::text::{
    chars_eq, chars_of, contains_char, seq_contains_char, split_char, split_chars, string_of,
    trim_chars, trim_seq,
};

verus! {

/// Deep containment of `subset` in `target`: every key of a subset object
/// must exist in the target with a recursively intersecting value; every
/// element of a subset array must have an intersecting counterpart anywhere
/// in the target array; scalars must be equal.
pub open spec fn value_intersects(target: ValueV, subset: ValueV) -> bool
    decreases subset, 0int,
{
    match (target, subset) {
        (ValueV::Object(t), ValueV::Object(s)) => forall|i: int|
            0 <= i < s.len() ==> match obj_get(t, (#[trigger] s[i]).0) {
                Some(tv) => value_intersects(tv, s[i].1),
                None => false,
            },
        (ValueV::Array(t), ValueV::Array(s)) => forall|i: int|
            0 <= i < s.len() ==> arr_elem_matches(t, #[trigger] s[i]),
        (ValueV::Null, ValueV::Null) => true,
        (ValueV::Bool(a), ValueV::Bool(b)) => a == b,
        (ValueV::Number(a), ValueV::Number(b)) => a == b,
        (ValueV::String(a), ValueV::String(b)) => a == b,
        _ => false,
    }
}

/// Some element of `t` intersects with the subset element `sv`.
pub open spec fn arr_elem_matches(t: Seq<ValueV>, sv: ValueV) -> bool
    decreases sv, 1int,
{
    exists|j: int| 0 <= j < t.len() && value_intersects(#[trigger] t[j], sv)
}

/// An array subset with one unmatched element does not intersect.
proof fn lemma_array_not_intersects(t: ValueV, s: ValueV, i: int)
    requires
        t is Array,
        s is Array,
        0 <= i < s->Array_0.len(),
        !arr_elem_matches(t->Array_0, s->Array_0[i]),
    ensures
        !value_intersects(t, s),
{
    if value_intersects(t, s) {
        assert(arr_elem_matches(t->Array_0, s->Array_0[i]));
    }
}

/// An array subset with every element matched intersects.
proof fn lemma_array_intersects(t: ValueV, s: ValueV)
    requires
        t is Array,
        s is Array,
        forall|j: int|
            0 <= j < s->Array_0.len() ==> arr_elem_matches(
                t->Array_0,
                #[trigger] s->Array_0[j],
            ),
    ensures
        value_intersects(t, s),
{
}

/// An object subset with one unmatched entry does not intersect.
proof fn lemma_object_not_intersects(t: ValueV, s: ValueV, i: int)
    requires
        t is Object,
        s is Object,
        0 <= i < s->Object_0.len(),
        match obj_get(t->Object_0, s->Object_0[i].0) {
            Some(tv) => !value_intersects(tv, s->Object_0[i].1),
            None => true,
        },
    ensures
        !value_intersects(t, s),
{
    if value_intersects(t, s) {
        assert(match obj_get(t->Object_0, s->Object_0[i].0) {
            Some(tv) => value_intersects(tv, s->Object_0[i].1),
            None => false,
        });
    }
}

/// An object subset with every entry matched intersects.
proof fn lemma_object_intersects(t: ValueV, s: ValueV)
    requires
        t is Object,
        s is Object,
        forall|j: int|
            0 <= j < s->Object_0.len() ==> match obj_get(
                t->Object_0,
                (#[trigger] s->Object_0[j]).0,
            ) {
                Some(tv) => value_intersects(tv, s->Object_0[j].1),
                None => false,
            },
    ensures
        value_intersects(t, s),
{
}

/// Decide `value_intersects` on executable values.
pub fn value_intersects_exec(target: &Value, subset: &Value) -> (r: bool)
    ensures
        r == value_intersects(target@, subset@),
    decreases subset, 0int,
{
    match (target, subset) {
        (Value::Null, Value::Null) => true,
        (Value::Bool(a), Value::Bool(b)) => {
            proof {
                assert(target@ == ValueV::Bool(*a));
                assert(subset@ == ValueV::Bool(*b));
            }
            *a == *b
        },
        (Value::Number(a), Value::Number(b)) => {
            proof {
                assert(target@ == ValueV::Number(*a));
                assert(subset@ == ValueV::Number(*b));
            }
            *a == *b
        },
        (Value::String(a), Value::String(b)) => {
            proof {
                assert(target@ == ValueV::String(a@));
                assert(subset@ == ValueV::String(b@));
            }
            *a == *b
        },
        (Value::Object(t), Value::Object(s)) => {
            proof {
                assert(target@ == ValueV::Object(pairs_view(t@)));
                assert(subset@ == ValueV::Object(pairs_view(s@)));
            }
            let mut i: usize = 0;
            while i < s.len()
                invariant
                    *target == Value::Object(*t),
                    *subset == Value::Object(*s),
                    i <= s@.len(),
                    forall|j: int| 0 <= j < i ==> match obj_get(
                        pairs_view(t@),
                        (#[trigger] s@[j]).0@,
                    ) {
                        Some(tv) => value_intersects(tv, s@[j].1@),
                        None => false,
                    },
                decreases s.len() - i,
            {
                proof {
                    assert(decreases_to!(*subset => subset->Object_0));
                    assert(decreases_to!(*subset => s@[i as int].1));
                    assert(pairs_view(s@)[i as int] == (s@[i as int].0@, s@[i as int].1@));
                }
                match obj_lookup(t, &s[i].0) {
                    Some(tv) => {
                        if !value_intersects_exec(tv, &s[i].1) {
                            proof {
                                assert(target@ == ValueV::Object(pairs_view(t@)));
                                assert(subset@ == ValueV::Object(pairs_view(s@)));
                                lemma_object_not_intersects(target@, subset@, i as int);
                            }
                            return false;
                        }
                    },
                    None => {
                        proof {
                            assert(target@ == ValueV::Object(pairs_view(t@)));
                            assert(subset@ == ValueV::Object(pairs_view(s@)));
                            lemma_object_not_intersects(target@, subset@, i as int);
                        }
                        return false;
                    },
                }
                i = i + 1;
            }
            proof {
                assert forall|j: int| 0 <= j < pairs_view(s@).len() implies match obj_get(
                    pairs_view(t@),
                    (#[trigger] pairs_view(s@)[j]).0,
                ) {
                    Some(tv) => value_intersects(tv, pairs_view(s@)[j].1),
                    None => false,
                } by {
                    assert(pairs_view(s@)[j] == (s@[j].0@, s@[j].1@));
                }
                assert(target@ == ValueV::Object(pairs_view(t@)));
                assert(subset@ == ValueV::Object(pairs_view(s@)));
                lemma_object_intersects(target@, subset@);
            }
            true
        },
        (Value::Array(t), Value::Array(s)) => {
            proof {
                assert(target@ == ValueV::Array(arr_view(t@)));
                assert(subset@ == ValueV::Array(arr_view(s@)));
            }
            let mut i: usize = 0;
            while i < s.len()
                invariant
                    *target == Value::Array(*t),
                    *subset == Value::Array(*s),
                    i <= s@.len(),
                    forall|j: int| 0 <= j < i ==> arr_elem_matches(
                        arr_view(t@),
                        #[trigger] arr_view(s@)[j],
                    ),
                decreases s.len() - i,
            {
                proof {
                    assert(decreases_to!(*subset => subset->Array_0));
                    assert(decreases_to!(*subset => s@[i as int]));
                }
                let ok = arr_elem_matches_exec(t, &s[i]);
                proof {
                    assert(arr_view(s@)[i as int] == s@[i as int]@);
                }
                if !ok {
                    proof {
                        assert(target@ == ValueV::Array(arr_view(t@)));
                        assert(subset@ == ValueV::Array(arr_view(s@)));
                        lemma_array_not_intersects(target@, subset@, i as int);
                    }
                    return false;
                }
                i = i + 1;
            }
            proof {
                assert(target@ == ValueV::Array(arr_view(t@)));
                assert(subset@ == ValueV::Array(arr_view(s@)));
                lemma_array_intersects(target@, subset@);
            }
            true
        },
        _ => {
            proof {
                crate::json::lemma_view_kinds(target);
                crate::json::lemma_view_kinds(subset);
            }
            false
        },
    }
}

/// Decide `arr_elem_matches` on executable values.
fn arr_elem_matches_exec(t: &Vec<Value>, sv: &Value) -> (r: bool)
    ensures
        r == arr_elem_matches(arr_view(t@), sv@),
    decreases sv, 1int,
{
    let mut k: usize = 0;
    while k < t.len()
        invariant
            k <= t@.len(),
            forall|m: int| 0 <= m < k ==> !value_intersects((#[trigger] t@[m])@, sv@),
        decreases t.len() - k,
    {
        if value_intersects_exec(&t[k], sv) {
            proof {
                assert(arr_view(t@)[k as int] == t@[k as int]@);
                assert(arr_elem_matches(arr_view(t@), sv@));
            }
            return true;
        }
        k = k + 1;
    }
    proof {
        assert forall|m: int| 0 <= m < arr_view(t@).len() implies !value_intersects(
            #[trigger] arr_view(t@)[m],
            sv@,
        ) by {
            assert(arr_view(t@)[m] == t@[m]@);
        }
        assert(!arr_elem_matches(arr_view(t@), sv@));
    }
    false
}

/// Vacuous subsets: `null` and the empty object match anything.
pub open spec fn vacuous_subset(s: ValueV) -> bool {
    match s {
        ValueV::Null => true,
        ValueV::Object(o) => o.len() == 0,
        _ => false,
    }
}

/// Containment of an optional subset in an optional target. An absent, null
/// or empty-object subset matches anything; a non-vacuous subset never
/// matches an absent or null target.
pub open spec fn object_intersects_spec(target: Option<ValueV>, subset: Option<ValueV>) -> bool {
    match subset {
        None => true,
        Some(s) => if vacuous_subset(s) {
            true
        } else {
            match target {
                None => false,
                Some(t) => if t is Null {
                    false
                } else {
                    value_intersects(t, s)
                },
            }
        },
    }
}

/// Check if a subset JSON value is contained in a target JSON value.
pub fn object_intersects(target: Option<&Value>, subset: Option<&Value>) -> (r: bool)
    ensures
        r == object_intersects_spec(
            match target {
                Some(t) => Some(t@),
                None => None,
            },
            match subset {
                Some(s) => Some(s@),
                None => None,
            },
        ),
{
    let subset = match subset {
        None => {
            return true;
        },
        Some(s) => s,
    };
    match subset {
        Value::Null => {
            proof {
                assert(subset@ == ValueV::Null);
            }
            return true;
        },
        Value::Object(o) => {
            proof {
                assert(subset@ == ValueV::Object(pairs_view(o@)));
            }
            if o.len() == 0 {
                return true;
            }
        },
        _ => {
            proof {
                crate::json::lemma_view_kinds(subset);
            }
        },
    }
    let target = match target {
        None => {
            return false;
        },
        Some(t) => t,
    };
    if let Value::Null = target {
        proof {
            assert(target@ == ValueV::Null);
        }
        return false;
    }
    proof {
        crate::json::lemma_view_kinds(target);
    }
    value_intersects_exec(target, subset)
}

/// An absent, null or empty-object subset matches any target, including an
/// absent one.
pub proof fn lemma_intersects_vacuous_subset(target: Option<ValueV>, subset: Option<ValueV>)
    requires
        subset is None || vacuous_subset(subset->0),
    ensures
        object_intersects_spec(target, subset),
{
}

/// A non-vacuous subset never matches an absent or null target.
pub proof fn lemma_intersects_absent_target(target: Option<ValueV>, subset: Option<ValueV>)
    requires
        subset is Some,
        !vacuous_subset(subset->0),
        target is None || target == Some(ValueV::Null),
    ensures
        !object_intersects_spec(target, subset),
{
}

/// Match of one expected string-map value against one actual value, with
/// comma-separated multi-value support: if the expected value holds a comma,
/// any of its comma-separated tokens may match any token of the actual value;
/// if only the actual value holds a comma, the expected value must match one
/// of its tokens; otherwise the two values must be equal after trimming.
pub open spec fn sm_value_matches(expected: Seq<char>, actual: Seq<char>) -> bool {
    if seq_contains_char(expected, ',') {
        exists|i: int, j: int|
            0 <= i < split_char(expected, ',').len() && 0 <= j < split_char(actual, ',').len()
                && trim_seq(#[trigger] split_char(expected, ',')[i]) == trim_seq(
                #[trigger] split_char(actual, ',')[j],
            )
    } else if seq_contains_char(actual, ',') {
        exists|j: int|
            0 <= j < split_char(actual, ',').len() && trim_seq(
                #[trigger] split_char(actual, ',')[j],
            ) == trim_seq(expected)
    } else {
        trim_seq(actual) == trim_seq(expected)
    }
}

/// Containment of an expected flat string map in an actual one: absent or
/// empty expected maps match anything; a non-empty expected map never matches
/// an absent actual map; otherwise every expected key must be present with a
/// matching value in the sense of `sm_value_matches`.
pub open spec fn sm_intersects(
    expected: Option<Seq<(Seq<char>, Seq<char>)>>,
    actual: Option<Seq<(Seq<char>, Seq<char>)>>,
) -> bool {
    match expected {
        None => true,
        Some(e) => if e.len() == 0 {
            true
        } else {
            match actual {
                None => false,
                Some(a) => forall|i: int|
                    0 <= i < e.len() ==> match sm_get(a, (#[trigger] e[i]).0) {
                        Some(av) => sm_value_matches(e[i].1, av),
                        None => false,
                    },
            }
        },
    }
}

/// Decide `sm_value_matches` on executable strings.
fn value_tokens_match(expected: &String, actual: &String) -> (r: bool)
    ensures
        r == sm_value_matches(expected@, actual@),
{
    let e = chars_of(expected.as_str());
    let a = chars_of(actual.as_str());
    if contains_char(&e, ',') {
        let etoks = split_chars(&e, ',');
        let atoks = split_chars(&a, ',');
        proof {
            assert(etoks@.map_values(|p: Vec<char>| p@) == split_char(expected@, ','));
            assert(atoks@.map_values(|p: Vec<char>| p@) == split_char(actual@, ','));
        }
        let mut i: usize = 0;
        while i < etoks.len()
            invariant
                etoks@.map_values(|p: Vec<char>| p@) == split_char(expected@, ','),
                atoks@.map_values(|p: Vec<char>| p@) == split_char(actual@, ','),
                i <= etoks@.len(),
                forall|x: int, y: int|
                    0 <= x < i && 0 <= y < split_char(actual@, ',').len() ==> trim_seq(
                        #[trigger] split_char(expected@, ',')[x],
                    ) != trim_seq(#[trigger] split_char(actual@, ',')[y]),
            decreases etoks.len() - i,
        {
            let et = trim_chars(&etoks[i]);
            proof {
                assert(etoks@.map_values(|p: Vec<char>| p@)[i as int] == etoks@[i as int]@);
            }
            let mut j: usize = 0;
            while j < atoks.len()
                invariant
                    etoks@.map_values(|p: Vec<char>| p@) == split_char(expected@, ','),
                    atoks@.map_values(|p: Vec<char>| p@) == split_char(actual@, ','),
                    i < etoks@.len(),
                    j <= atoks@.len(),
                    et@ == trim_seq(split_char(expected@, ',')[i as int]),
                    forall|y: int|
                        0 <= y < j ==> trim_seq(split_char(expected@, ',')[i as int]) != trim_seq(
                            #[trigger] split_char(actual@, ',')[y],
                        ),
                decreases atoks.len() - j,
            {
                let at = trim_chars(&atoks[j]);
                proof {
                    assert(atoks@.map_values(|p: Vec<char>| p@)[j as int] == atoks@[j as int]@);
                }
                if chars_eq(&et, &at) {
                    proof {
                        assert(seq_contains_char(expected@, ','));
                        assert(trim_seq(split_char(expected@, ',')[i as int]) == trim_seq(
                            split_char(actual@, ',')[j as int],
                        ));
                        assert(sm_value_matches(expected@, actual@));
                    }
                    return true;
                }
                j = j + 1;
            }
            i = i + 1;
        }
        false
    } else if contains_char(&a, ',') {
        let atoks = split_chars(&a, ',');
        proof {
            assert(atoks@.map_values(|p: Vec<char>| p@) == split_char(actual@, ','));
        }
        let et = trim_chars(&e);
        let mut j: usize = 0;
        while j < atoks.len()
            invariant
                atoks@.map_values(|p: Vec<char>| p@) == split_char(actual@, ','),
                j <= atoks@.len(),
                et@ == trim_seq(expected@),
                forall|y: int|
                    0 <= y < j ==> trim_seq(#[trigger] split_char(actual@, ',')[y]) != trim_seq(
                        expected@,
                    ),
            decreases atoks.len() - j,
        {
            let at = trim_chars(&atoks[j]);
            proof {
                assert(atoks@.map_values(|p: Vec<char>| p@)[j as int] == atoks@[j as int]@);
            }
            if chars_eq(&et, &at) {
                proof {
                    assert(!seq_contains_char(expected@, ','));
                    assert(seq_contains_char(actual@, ','));
                    assert(trim_seq(split_char(actual@, ',')[j as int]) == trim_seq(expected@));
                    assert(sm_value_matches(expected@, actual@));
                }
                return true;
            }
            j = j + 1;
        }
        false
    } else {
        let et = trim_chars(&e);
        let at = trim_chars(&a);
        chars_eq(&at, &et)
    }
}

/// Check if an expected flat string map is contained in an actual one, with
/// comma-separated multi-value support.
pub fn hashmap_intersects(expected: Option<&StringMap>, actual: Option<&StringMap>) -> (r: bool)
    ensures
        r == sm_intersects(
            match expected {
                Some(e) => Some(e@),
                None => None,
            },
            match actual {
                Some(a) => Some(a@),
                None => None,
            },
        ),
{
    let expected = match expected {
        None => {
            return true;
        },
        Some(e) => e,
    };
    if expected.is_empty() {
        return true;
    }
    let actual = match actual {
        None => {
            return false;
        },
        Some(a) => a,
    };
    let mut i: usize = 0;
    while i < expected.len()
        invariant
            i <= expected@.len(),
            forall|j: int| 0 <= j < i ==> match sm_get(actual@, (#[trigger] expected@[j]).0) {
                Some(av) => sm_value_matches(expected@[j].1, av),
                None => false,
            },
        decreases expected@.len() - i,
    {
        let key = expected.key_at(i);
        let ev = expected.value_at(i);
        match actual.get(key) {
            Some(av) => {
                if !value_tokens_match(ev, av) {
                    return false;
                }
            },
            None => {
                return false;
            },
        }
        i = i + 1;
    }
    true
}

/// `sm_intersects` is true whenever the expected map is absent or empty.
pub proof fn lemma_sm_intersects_vacuous(
    expected: Option<Seq<(Seq<char>, Seq<char>)>>,
    actual: Option<Seq<(Seq<char>, Seq<char>)>>,
)
    requires
        expected is None || expected->0.len() == 0,
    ensures
        sm_intersects(expected, actual),
{
}

/// `sm_intersects` is false whenever the expected map is non-empty and the
/// actual map is absent.
pub proof fn lemma_sm_intersects_absent(
    expected: Option<Seq<(Seq<char>, Seq<char>)>>,
    actual: Option<Seq<(Seq<char>, Seq<char>)>>,
)
    requires
        expected is Some,
        expected->0.len() > 0,
        actual is None,
    ensures
        !sm_intersects(expected, actual),
{
}

/// The JSON value standing for one string-map value: a comma-separated value
/// becomes an array of its trimmed tokens, any other value stays a string.
pub open spec fn comma_value(v: Seq<char>) -> ValueV {
    if seq_contains_char(v, ',') {
        ValueV::Array(
            Seq::new(
                split_char(v, ',').len(),
                |i: int|
                    if 0 <= i < split_char(v, ',').len() {
                        ValueV::String(trim_seq(split_char(v, ',')[i]))
                    } else {
                        ValueV::Null
                    },
            ),
        )
    } else {
        ValueV::String(v)
    }
}

/// The JSON object standing for a whole string map.
pub open spec fn sm_to_value(m: Seq<(Seq<char>, Seq<char>)>) -> ValueV {
    ValueV::Object(
        Seq::new(
            m.len(),
            |i: int|
                if 0 <= i < m.len() {
                    (m[i].0, comma_value(m[i].1))
                } else {
                    (Seq::empty(), ValueV::Null)
                },
        ),
    )
}

/// Convert a flat string map to a JSON object value, turning comma-separated
/// values into arrays of trimmed tokens.
pub fn hashmap_to_value(map: &StringMap) -> (r: Value)
    ensures
        r@ == sm_to_value(map@),
{
    let mut entries: Vec<(String, Value)> = Vec::new();
    let mut i: usize = 0;
    while i < map.len()
        invariant
            i <= map@.len(),
            entries@.len() == i,
            forall|j: int| 0 <= j < i ==> (#[trigger] entries@[j]).0@ == map@[j].0
                && entries@[j].1@ == comma_value(map@[j].1),
        decreases map@.len() - i,
    {
        let key = map.key_at(i).clone();
        let vchars = chars_of(map.value_at(i).as_str());
        let v: Value = if contains_char(&vchars, ',') {
            let toks = split_chars(&vchars, ',');
            proof {
                assert(toks@.map_values(|p: Vec<char>| p@) == split_char(map@[i as int].1, ','));
            }
            let mut items: Vec<Value> = Vec::new();
            let mut j: usize = 0;
            while j < toks.len()
                invariant
                    toks@.map_values(|p: Vec<char>| p@) == split_char(map@[i as int].1, ','),
                    j <= toks@.len(),
                    items@.len() == j,
                    forall|y: int| 0 <= y < j ==> (#[trigger] items@[y])@ == ValueV::String(
                        trim_seq(split_char(map@[i as int].1, ',')[y]),
                    ),
                decreases toks.len() - j,
            {
                let t = trim_chars(&toks[j]);
                proof {
                    assert(toks@.map_values(|p: Vec<char>| p@)[j as int] == toks@[j as int]@);
                }
                items.push(Value::String(string_of(&t)));
                j = j + 1;
            }
            proof {
                assert forall|y: int|
                    0 <= y < arr_view(items@).len() implies #[trigger] arr_view(items@)[y]
                    == comma_value(map@[i as int].1)->Array_0[y] by {
                    assert(arr_view(items@)[y] == items@[y]@);
                }
                assert(arr_view(items@) =~= comma_value(map@[i as int].1)->Array_0);
            }
            Value::Array(items)
        } else {
            Value::String(string_of(&vchars))
        };
        entries.push((key, v));
        i = i + 1;
    }
    let r = Value::Object(entries);
    proof {
        assert forall|j: int| 0 <= j < pairs_view(entries@).len() implies #[trigger] pairs_view(
            entries@,
        )[j] == sm_to_value(map@)->Object_0[j] by {
            assert(pairs_view(entries@)[j] == (entries@[j].0@, entries@[j].1@));
        }
        assert(pairs_view(entries@) =~= sm_to_value(map@)->Object_0);
    }
    r
}

} // verus!
