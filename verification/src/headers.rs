//! Header matching: case-insensitive on keys, exact on values.

use vstd::prelude::*;
use crate::strmap::{sm_get, sm_set, StringMap};
use crate::text::{chars_of, lemma_lower_seq_idempotent, lower_chars, lower_seq, string_of};

verus! {

/// Fold the entries into an accumulator map, lower-casing each key.
pub open spec fn norm_from(
    acc: Seq<(Seq<char>, Seq<char>)>,
    entries: Seq<(Seq<char>, Seq<char>)>,
) -> Seq<(Seq<char>, Seq<char>)>
    decreases entries.len(),
{
    if entries.len() == 0 {
        acc
    } else {
        norm_from(sm_set(acc, lower_seq(entries[0].0), entries[0].1), entries.drop_first())
    }
}

/// A header map with every key lower-cased; a later entry wins over an
/// earlier one whose key differs only in case.
pub open spec fn normalize_spec(entries: Seq<(Seq<char>, Seq<char>)>) -> Seq<
    (Seq<char>, Seq<char>),
> {
    norm_from(Seq::empty(), entries)
}

proof fn lemma_norm_from_push(
    acc: Seq<(Seq<char>, Seq<char>)>,
    entries: Seq<(Seq<char>, Seq<char>)>,
    x: (Seq<char>, Seq<char>),
)
    ensures
        norm_from(acc, entries.push(x)) == sm_set(norm_from(acc, entries), lower_seq(x.0), x.1),
    decreases entries.len(),
{
    let p = entries.push(x);
    if entries.len() == 0 {
        assert(p[0] == x);
        assert(p.drop_first() =~= Seq::<(Seq<char>, Seq<char>)>::empty());
        assert(norm_from(acc, p) == norm_from(
            sm_set(acc, lower_seq(x.0), x.1),
            p.drop_first(),
        ));
        assert(norm_from(sm_set(acc, lower_seq(x.0), x.1), p.drop_first()) == sm_set(
            acc,
            lower_seq(x.0),
            x.1,
        ));
        assert(norm_from(acc, entries) == acc);
    } else {
        assert(p[0] == entries[0]);
        assert(p.drop_first() =~= entries.drop_first().push(x));
        let acc2 = sm_set(acc, lower_seq(entries[0].0), entries[0].1);
        assert(norm_from(acc, p) == norm_from(acc2, p.drop_first()));
        assert(norm_from(acc2, p.drop_first()) == norm_from(acc2, entries.drop_first().push(x)));
        lemma_norm_from_push(acc2, entries.drop_first(), x);
        assert(norm_from(acc, entries) == norm_from(acc2, entries.drop_first()));
    }
}

/// Lower-case every key of a header map, keeping values; a later entry whose
/// lower-cased key already occurred replaces that entry's value in place.
pub fn normalize_headers(headers: Option<&StringMap>) -> (r: StringMap)
    ensures
        r@ == match headers {
            Some(h) => normalize_spec(h@),
            None => Seq::<(Seq<char>, Seq<char>)>::empty(),
        },
{
    let h = match headers {
        None => {
            return StringMap::new();
        },
        Some(h) => h,
    };
    let mut r = StringMap::new();
    let mut i: usize = 0;
    while i < h.len()
        invariant
            i <= h@.len(),
            r@ == norm_from(Seq::empty(), h@.take(i as int)),
        decreases h@.len() - i,
    {
        let key = lower_chars(&chars_of(h.key_at(i).as_str()));
        let value = h.value_at(i).clone();
        r.insert(string_of(&key), value);
        proof {
            assert(h@.take(i as int).push(h@[i as int]) =~= h@.take(i as int + 1));
            lemma_norm_from_push(Seq::empty(), h@.take(i as int), h@[i as int]);
        }
        i = i + 1;
    }
    proof {
        assert(h@.take(h@.len() as int) =~= h@);
    }
    r
}

/// Every entry of `s` is carried by `t` with an equal value.
pub open spec fn sm_all_eq(
    t: Seq<(Seq<char>, Seq<char>)>,
    s: Seq<(Seq<char>, Seq<char>)>,
) -> bool {
    forall|i: int| 0 <= i < s.len() ==> sm_get(t, (#[trigger] s[i]).0) == Some(s[i].1)
}

/// Header containment: an absent or empty subset matches anything; a
/// non-empty subset never matches an absent target; otherwise both maps are
/// key-lower-cased and every subset entry must be present in the target with
/// an equal value.
pub open spec fn headers_intersects_spec(
    target: Option<Seq<(Seq<char>, Seq<char>)>>,
    subset: Option<Seq<(Seq<char>, Seq<char>)>>,
) -> bool {
    match subset {
        None => true,
        Some(s) => if s.len() == 0 {
            true
        } else {
            match target {
                None => false,
                Some(t) => sm_all_eq(normalize_spec(t), normalize_spec(s)),
            }
        },
    }
}

/// Check if the subset headers are contained in the target headers,
/// comparing keys case-insensitively.
pub fn headers_intersects(target: Option<&StringMap>, subset: Option<&StringMap>) -> (r: bool)
    ensures
        r == headers_intersects_spec(
            match target {
                Some(t) => Some(t@),
                None => None,
            },
            match subset {
                Some(s) => Some(s@),
                None => None,
            },
        ),
{
    let subset = match subset {
        None => {
            return true;
        },
        Some(s) => s,
    };
    if subset.is_empty() {
        return true;
    }
    let target = match target {
        None => {
            return false;
        },
        Some(t) => t,
    };
    let nt = normalize_headers(Some(target));
    let ns = normalize_headers(Some(subset));
    let mut i: usize = 0;
    while i < ns.len()
        invariant
            i <= ns@.len(),
            forall|j: int| 0 <= j < i ==> sm_get(nt@, (#[trigger] ns@[j]).0) == Some(ns@[j].1),
        decreases ns@.len() - i,
    {
        let key = ns.key_at(i);
        let sv = ns.value_at(i);
        match nt.get(key) {
            Some(tv) => {
                if !(*tv == *sv) {
                    return false;
                }
            },
            None => {
                return false;
            },
        }
        i = i + 1;
    }
    true
}

/// The sequence with every key lower-cased entry by entry.
pub open spec fn lower_keys(entries: Seq<(Seq<char>, Seq<char>)>) -> Seq<(Seq<char>, Seq<char>)> {
    entries.map_values(|e: (Seq<char>, Seq<char>)| (lower_seq(e.0), e.1))
}

proof fn lemma_norm_from_lower_keys(
    acc: Seq<(Seq<char>, Seq<char>)>,
    entries: Seq<(Seq<char>, Seq<char>)>,
)
    ensures
        norm_from(acc, lower_keys(entries)) == norm_from(acc, entries),
    decreases entries.len(),
{
    if entries.len() == 0 {
        assert(lower_keys(entries).len() == 0);
    } else {
        assert(lower_keys(entries)[0] == (lower_seq(entries[0].0), entries[0].1));
        lemma_lower_seq_idempotent(entries[0].0);
        assert(lower_keys(entries).drop_first() =~= lower_keys(entries.drop_first()));
        lemma_norm_from_lower_keys(
            sm_set(acc, lower_seq(entries[0].0), entries[0].1),
            entries.drop_first(),
        );
    }
}

/// Header matching is case-insensitive on keys: lower-casing the keys of the
/// target, of the subset, or of both, never changes the result.
pub proof fn lemma_headers_case_insensitive(
    t: Seq<(Seq<char>, Seq<char>)>,
    s: Seq<(Seq<char>, Seq<char>)>,
)
    ensures
        headers_intersects_spec(Some(lower_keys(t)), Some(s)) == headers_intersects_spec(
            Some(t),
            Some(s),
        ),
        headers_intersects_spec(Some(t), Some(lower_keys(s))) == headers_intersects_spec(
            Some(t),
            Some(s),
        ),
{
    lemma_norm_from_lower_keys(Seq::empty(), t);
    lemma_norm_from_lower_keys(Seq::empty(), s);
    assert(lower_keys(s).len() == s.len());
}

/// An absent or empty subset of headers matches any target, including an
/// absent one.
pub proof fn lemma_headers_vacuous_subset(
    target: Option<Seq<(Seq<char>, Seq<char>)>>,
    subset: Option<Seq<(Seq<char>, Seq<char>)>>,
)
    requires
        subset is None || subset->0.len() == 0,
    ensures
        headers_intersects_spec(target, subset),
{
}

/// A non-empty subset of headers never matches an absent target.
pub proof fn lemma_headers_absent_target(
    target: Option<Seq<(Seq<char>, Seq<char>)>>,
    subset: Option<Seq<(Seq<char>, Seq<char>)>>,
)
    requires
        subset is Some,
        subset->0.len() > 0,
        target is None,
    ensures
        !headers_intersects_spec(target, subset),
{
}

} // verus!
