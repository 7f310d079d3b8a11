//! The JSON-like value model used for payload data and criterion matching.
//!
//! `Value` is the executable type; `ValueV` is its mathematical view, with
//! strings as character sequences and containers as sequences. Objects are
//! association lists looked up by first match; well-formed data produced by
//! the loaders carries each key once.

use vstd::prelude::*;
use vstd::string::*;

verus! {

/// Mathematical view of a JSON-like value.
pub enum ValueV {
    Null,
    Bool(bool),
    Number(i64),
    String(Seq<char>),
    Array(Seq<ValueV>),
    Object(Seq<(Seq<char>, ValueV)>),
}

/// JSON-like value: null, booleans, integer numbers, strings, arrays and
/// objects. Numbers are modelled as signed 64-bit integers.
#[derive(Debug)]
pub enum Value {
    Null,
    Bool(bool),
    Number(i64),
    String(String),
    Array(Vec<Value>),
    Object(Vec<(String, Value)>),
}

/// View of an array's elements.
pub open spec fn arr_view(vs: Seq<Value>) -> Seq<ValueV>
    decreases vs,
{
    Seq::new(
        vs.len(),
        |i: int|
            if 0 <= i < vs.len() {
                vs[i]@
            } else {
                ValueV::Null
            },
    )
}

/// View of an object's entry list.
pub open spec fn pairs_view(ps: Seq<(String, Value)>) -> Seq<(Seq<char>, ValueV)>
    decreases ps,
{
    Seq::new(
        ps.len(),
        |i: int|
            if 0 <= i < ps.len() {
                (ps[i].0@, ps[i].1@)
            } else {
                (Seq::empty(), ValueV::Null)
            },
    )
}

impl View for Value {
    type V = ValueV;

    open spec fn view(&self) -> ValueV
        decreases self,
    {
        match self {
            Value::Null => ValueV::Null,
            Value::Bool(b) => ValueV::Bool(*b),
            Value::Number(n) => ValueV::Number(*n),
            Value::String(s) => ValueV::String(s@),
            Value::Array(vs) => ValueV::Array(arr_view(vs@)),
            Value::Object(ps) => ValueV::Object(pairs_view(ps@)),
        }
    }
}

/// Value of the first entry carrying the given key, if any.
pub open spec fn obj_get(entries: Seq<(Seq<char>, ValueV)>, key: Seq<char>) -> Option<ValueV>
    decreases entries.len(),
{
    if entries.len() == 0 {
        None
    } else if entries[0].0 == key {
        Some(entries[0].1)
    } else {
        obj_get(entries.drop_first(), key)
    }
}

/// `obj_get` is pinned down by the position of the first matching key.
pub proof fn lemma_obj_get_at(entries: Seq<(Seq<char>, ValueV)>, key: Seq<char>, i: int)
    requires
        0 <= i <= entries.len(),
        forall|j: int| 0 <= j < i ==> (#[trigger] entries[j]).0 != key,
        i < entries.len() ==> entries[i].0 == key,
    ensures
        obj_get(entries, key) == if i < entries.len() {
            Some(entries[i].1)
        } else {
            None::<ValueV>
        },
    decreases entries.len(),
{
    if entries.len() > 0 && entries[0].0 != key {
        assert forall|j: int| 0 <= j < i - 1 implies (#[trigger] entries.drop_first()[j]).0
            != key by {
            assert(entries[j + 1].0 != key);
        }
        if i - 1 < entries.drop_first().len() {
            assert(entries.drop_first()[i - 1] == entries[i]);
        }
        lemma_obj_get_at(entries.drop_first(), key, i - 1);
    }
}

/// Look up a key in an object's entry list.
pub fn obj_lookup<'a>(entries: &'a Vec<(String, Value)>, key: &String) -> (r: Option<&'a Value>)
    ensures
        match r {
            Some(v) => obj_get(pairs_view(entries@), key@) == Some(v@),
            None => obj_get(pairs_view(entries@), key@) is None,
        },
{
    let mut i: usize = 0;
    while i < entries.len()
        invariant
            i <= entries@.len(),
            forall|j: int| 0 <= j < i ==> (#[trigger] pairs_view(entries@)[j]).0 != key@,
        decreases entries.len() - i,
    {
        if entries[i].0 == *key {
            proof {
                lemma_obj_get_at(pairs_view(entries@), key@, i as int);
            }
            return Some(&entries[i].1);
        }
        i = i + 1;
    }
    proof {
        lemma_obj_get_at(pairs_view(entries@), key@, i as int);
    }
    None
}

/// Structural equality of two values. Arrays are equal element by element in
/// order; objects are equal when they have the same number of entries and
/// every entry of the left object is carried, with an equal value, by the
/// right one.
pub open spec fn value_eq(a: ValueV, b: ValueV) -> bool
    decreases a,
{
    match (a, b) {
        (ValueV::Null, ValueV::Null) => true,
        (ValueV::Bool(x), ValueV::Bool(y)) => x == y,
        (ValueV::Number(x), ValueV::Number(y)) => x == y,
        (ValueV::String(x), ValueV::String(y)) => x == y,
        (ValueV::Array(x), ValueV::Array(y)) => x.len() == y.len() && forall|i: int|
            0 <= i < x.len() ==> value_eq(#[trigger] x[i], y[i]),
        (ValueV::Object(x), ValueV::Object(y)) => x.len() == y.len() && forall|i: int|
            0 <= i < x.len() ==> match obj_get(y, (#[trigger] x[i]).0) {
                Some(bv) => value_eq(x[i].1, bv),
                None => false,
            },
        _ => false,
    }
}

/// Decide `value_eq` on executable values.
pub fn deep_eq(a: &Value, b: &Value) -> (r: bool)
    ensures
        r == value_eq(a@, b@),
    decreases a,
{
    match (a, b) {
        (Value::Null, Value::Null) => {
            proof {
                assert(a@ == ValueV::Null);
                assert(b@ == ValueV::Null);
            }
            true
        },
        (Value::Bool(x), Value::Bool(y)) => {
            proof {
                assert(a@ == ValueV::Bool(*x));
                assert(b@ == ValueV::Bool(*y));
            }
            *x == *y
        },
        (Value::Number(x), Value::Number(y)) => {
            proof {
                assert(a@ == ValueV::Number(*x));
                assert(b@ == ValueV::Number(*y));
            }
            *x == *y
        },
        (Value::String(x), Value::String(y)) => {
            proof {
                assert(a@ == ValueV::String(x@));
                assert(b@ == ValueV::String(y@));
            }
            *x == *y
        },
        (Value::Array(x), Value::Array(y)) => {
            proof {
                assert(a@ == ValueV::Array(arr_view(x@)));
                assert(b@ == ValueV::Array(arr_view(y@)));
            }
            if x.len() != y.len() {
                proof {
                    assert(!value_eq(a@, b@));
                }
                return false;
            }
            let mut i: usize = 0;
            while i < x.len()
                invariant
                    *a == Value::Array(*x),
                    *b == Value::Array(*y),
                    x@.len() == y@.len(),
                    i <= x@.len(),
                    forall|j: int| 0 <= j < i ==> value_eq((#[trigger] x@[j])@, y@[j]@),
                decreases x.len() - i,
            {
                proof {
                    assert(decreases_to!(*a => a->Array_0));
                    assert(decreases_to!(*a => x@[i as int]));
                }
                if !deep_eq(&x[i], &y[i]) {
                    proof {
                        assert(arr_view(x@)[i as int] == x@[i as int]@);
                        assert(arr_view(y@)[i as int] == y@[i as int]@);
                        assert(!value_eq(a@, b@));
                    }
                    return false;
                }
                i = i + 1;
            }
            proof {
                assert forall|j: int| 0 <= j < arr_view(x@).len() implies value_eq(
                    #[trigger] arr_view(x@)[j],
                    arr_view(y@)[j],
                ) by {
                    assert(arr_view(x@)[j] == x@[j]@);
                    assert(arr_view(y@)[j] == y@[j]@);
                }
                assert(value_eq(a@, b@));
            }
            true
        },
        (Value::Object(x), Value::Object(y)) => {
            proof {
                assert(a@ == ValueV::Object(pairs_view(x@)));
                assert(b@ == ValueV::Object(pairs_view(y@)));
            }
            if x.len() != y.len() {
                proof {
                    assert(!value_eq(a@, b@));
                }
                return false;
            }
            let mut i: usize = 0;
            while i < x.len()
                invariant
                    *a == Value::Object(*x),
                    *b == Value::Object(*y),
                    x@.len() == y@.len(),
                    i <= x@.len(),
                    forall|j: int| 0 <= j < i ==> match obj_get(pairs_view(y@), (#[trigger] x@[j]).0@) {
                        Some(bv) => value_eq(x@[j].1@, bv),
                        None => false,
                    },
                decreases x.len() - i,
            {
                proof {
                    assert(decreases_to!(*a => a->Object_0));
                    assert(decreases_to!(*a => x@[i as int].1));
                    assert(pairs_view(x@)[i as int] == (x@[i as int].0@, x@[i as int].1@));
                }
                match obj_lookup(y, &x[i].0) {
                    Some(bv) => {
                        if !deep_eq(&x[i].1, bv) {
                            proof {
                                assert(!value_eq(a@, b@));
                            }
                            return false;
                        }
                    },
                    None => {
                        proof {
                            assert(!value_eq(a@, b@));
                        }
                        return false;
                    },
                }
                i = i + 1;
            }
            proof {
                assert forall|j: int| 0 <= j < pairs_view(x@).len() implies match obj_get(
                    pairs_view(y@),
                    (#[trigger] pairs_view(x@)[j]).0,
                ) {
                    Some(bv) => value_eq(pairs_view(x@)[j].1, bv),
                    None => false,
                } by {
                    assert(pairs_view(x@)[j] == (x@[j].0@, x@[j].1@));
                }
                assert(value_eq(a@, b@));
            }
            true
        },
        _ => {
            proof {
                lemma_value_eq_mixed(a, b);
            }
            false
        },
    }
}

/// When the two values are of different kinds, or of a kind compared only by
/// the catch-all arm, they are unequal.
proof fn lemma_value_eq_mixed(a: &Value, b: &Value)
    requires
        !(*a is Null && *b is Null),
        !(*a is Bool && *b is Bool),
        !(*a is Number && *b is Number),
        !(*a is String && *b is String),
        !(*a is Array && *b is Array),
        !(*a is Object && *b is Object),
    ensures
        !value_eq(a@, b@),
{
    match a {
        Value::Null => assert(a@ == ValueV::Null),
        Value::Bool(x) => assert(a@ == ValueV::Bool(*x)),
        Value::Number(x) => assert(a@ == ValueV::Number(*x)),
        Value::String(x) => assert(a@ == ValueV::String(x@)),
        Value::Array(x) => assert(a@ == ValueV::Array(arr_view(x@))),
        Value::Object(x) => assert(a@ == ValueV::Object(pairs_view(x@))),
    }
    match b {
        Value::Null => assert(b@ == ValueV::Null),
        Value::Bool(x) => assert(b@ == ValueV::Bool(*x)),
        Value::Number(x) => assert(b@ == ValueV::Number(*x)),
        Value::String(x) => assert(b@ == ValueV::String(x@)),
        Value::Array(x) => assert(b@ == ValueV::Array(arr_view(x@))),
        Value::Object(x) => assert(b@ == ValueV::Object(pairs_view(x@))),
    }
}

impl Clone for Value {
    fn clone(&self) -> (r: Self)
        ensures
            r@ == self@,
        decreases self,
    {
        match self {
            Value::Null => Value::Null,
            Value::Bool(b) => Value::Bool(*b),
            Value::Number(n) => Value::Number(*n),
            Value::String(s) => Value::String(s.clone()),
            Value::Array(vs) => {
                let mut r: Vec<Value> = Vec::new();
                let mut i: usize = 0;
                while i < vs.len()
                    invariant
                        i <= vs@.len(),
                        r@.len() == i,
                        *self == Value::Array(*vs),
                        forall|j: int| 0 <= j < i ==> (#[trigger] r@[j])@ == vs@[j]@,
                    decreases vs.len() - i,
                {
                    proof {
                        assert(decreases_to!(*self => self->Array_0));
                        assert(decreases_to!(*self => vs@[i as int]));
                    }
                    r.push(vs[i].clone());
                    i = i + 1;
                }
                proof {
                    assert forall|j: int| 0 <= j < arr_view(r@).len() implies #[trigger] arr_view(
                        r@,
                    )[j] == arr_view(vs@)[j] by {
                        assert(arr_view(r@)[j] == r@[j]@);
                        assert(arr_view(vs@)[j] == vs@[j]@);
                    }
                    assert(arr_view(r@) =~= arr_view(vs@));
                }
                Value::Array(r)
            },
            Value::Object(ps) => {
                let mut r: Vec<(String, Value)> = Vec::new();
                let mut i: usize = 0;
                while i < ps.len()
                    invariant
                        i <= ps@.len(),
                        r@.len() == i,
                        *self == Value::Object(*ps),
                        forall|j: int| 0 <= j < i ==> (#[trigger] r@[j]).0@ == ps@[j].0@ && r@[j].1@
                            == ps@[j].1@,
                    decreases ps.len() - i,
                {
                    proof {
                        assert(decreases_to!(*self => self->Object_0));
                        assert(decreases_to!(*self => ps@[i as int].1));
                    }
                    let k = ps[i].0.clone();
                    let v = ps[i].1.clone();
                    r.push((k, v));
                    i = i + 1;
                }
                proof {
                    assert forall|j: int| 0 <= j < pairs_view(r@).len() implies #[trigger] pairs_view(
                        r@,
                    )[j] == pairs_view(ps@)[j] by {
                        assert(pairs_view(r@)[j] == (r@[j].0@, r@[j].1@));
                        assert(pairs_view(ps@)[j] == (ps@[j].0@, ps@[j].1@));
                    }
                    assert(pairs_view(r@) =~= pairs_view(ps@));
                }
                Value::Object(r)
            },
        }
    }
}

/// The view of a value is of the same kind as the value itself.
pub proof fn lemma_view_kinds(v: &Value)
    ensures
        (v@ is Null) == (*v is Null),
        (v@ is Bool) == (*v is Bool),
        (v@ is Number) == (*v is Number),
        (v@ is String) == (*v is String),
        (v@ is Array) == (*v is Array),
        (v@ is Object) == (*v is Object),
{
    match v {
        Value::Null => assert(v@ == ValueV::Null),
        Value::Bool(x) => assert(v@ == ValueV::Bool(*x)),
        Value::Number(x) => assert(v@ == ValueV::Number(*x)),
        Value::String(x) => assert(v@ == ValueV::String(x@)),
        Value::Array(x) => assert(v@ == ValueV::Array(arr_view(x@))),
        Value::Object(x) => assert(v@ == ValueV::Object(pairs_view(x@))),
    }
}

/// Truthiness of a value: `false`, `null`, the number zero, the empty string,
/// the empty array and the empty object are false; everything else is true.
pub open spec fn value_truthy(v: ValueV) -> bool {
    match v {
        ValueV::Bool(b) => b,
        ValueV::Null => false,
        ValueV::Number(n) => n != 0,
        ValueV::String(s) => s.len() > 0,
        ValueV::Array(a) => a.len() > 0,
        ValueV::Object(o) => o.len() > 0,
    }
}

/// Convert an evaluated expression result to a boolean.
pub fn jmespath_result_to_bool(v: &Value) -> (r: bool)
    ensures
        r == value_truthy(v@),
{
    match v {
        Value::Bool(b) => *b,
        Value::Null => false,
        Value::Number(n) => *n != 0,
        Value::String(s) => {
            proof {
                assert(v@ == ValueV::String(s@));
            }
            s.as_str().unicode_len() > 0
        },
        Value::Array(a) => {
            proof {
                assert(v@ == ValueV::Array(arr_view(a@)));
            }
            a.len() > 0
        },
        Value::Object(o) => {
            proof {
                assert(v@ == ValueV::Object(pairs_view(o@)));
            }
            o.len() > 0
        },
    }
}

} // verus!
