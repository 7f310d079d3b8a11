//! Query-string parsing and query-parameter matching.

use vstd::prelude::*;
use vstd::string::*;
use crate::expression::expression_matches;
use crate::intersect::{hashmap_intersects, hashmap_to_value, sm_intersects, sm_to_value};
use crate::strmap::{sm_get, sm_set, StringMap};
use crate::text::{
    chars_of, find_char, first_index_of, lemma_first_index_of, split_char,
    split_chars, string_of,
};

verus! {

/// The percent-decoding of a string: every `%XX` with two hex digits becomes
/// the byte `XX`, the bytes are read back as UTF-8, and a string that does
/// not decode to valid UTF-8 is returned unchanged. The result depends on
/// the input alone.
pub uninterp spec fn decoded_of(s: Seq<char>) -> Seq<char>;

/// Relies on `urlencoding::decode`: percent-decodes the string, and returns
/// a string without `%` unchanged; a `+` is kept as it is. On invalid UTF-8
/// the input is returned unchanged, as the decoding error carries no
/// decoded text.
#[verifier::external_body]
fn percent_decode(s: &str) -> (r: String)
    ensures
        r@ == decoded_of(s@),
        !crate::text::seq_contains_char(s@, '%') ==> r@ == s@,
{
    match urlencoding::decode(s) {
        Ok(c) => c.into_owned(),
        Err(_) => s.to_string(),
    }
}

/// Position of the first `=` in a pair, clamped to its length.
pub open spec fn eq_pos(pair: Seq<char>) -> int {
    let i = first_index_of(pair, '=');
    if i < 0 {
        0
    } else if i > pair.len() {
        pair.len() as int
    } else {
        i
    }
}

/// One `key=value` pair added to the parsed map: both sides are
/// percent-decoded, a pair without `=` gets an empty value, an empty pair is
/// skipped, and a repeated key has the new value comma-joined onto the
/// existing one.
pub open spec fn add_pair(
    acc: Seq<(Seq<char>, Seq<char>)>,
    pair: Seq<char>,
) -> Seq<(Seq<char>, Seq<char>)> {
    if pair.len() == 0 {
        acc
    } else {
        let e = eq_pos(pair);
        let key = decoded_of(pair.take(e));
        let value = if e < pair.len() {
            decoded_of(pair.skip(e + 1))
        } else {
            Seq::empty()
        };
        match sm_get(acc, key) {
            Some(existing) => sm_set(acc, key, existing + seq![','] + value),
            None => sm_set(acc, key, value),
        }
    }
}

/// The pairs folded into a map, in order.
pub open spec fn parse_qs_from(
    acc: Seq<(Seq<char>, Seq<char>)>,
    pairs: Seq<Seq<char>>,
) -> Seq<(Seq<char>, Seq<char>)>
    decreases pairs.len(),
{
    if pairs.len() == 0 {
        acc
    } else {
        parse_qs_from(add_pair(acc, pairs[0]), pairs.drop_first())
    }
}

/// The map parsed from a whole query string: `&`-separated pairs, in order.
pub open spec fn parse_query_string_spec(s: Seq<char>) -> Seq<(Seq<char>, Seq<char>)> {
    parse_qs_from(Seq::empty(), split_char(s, '&'))
}

proof fn lemma_parse_qs_push(
    acc: Seq<(Seq<char>, Seq<char>)>,
    pairs: Seq<Seq<char>>,
    x: Seq<char>,
)
    ensures
        parse_qs_from(acc, pairs.push(x)) == add_pair(parse_qs_from(acc, pairs), x),
    decreases pairs.len(),
{
    let p = pairs.push(x);
    if pairs.len() == 0 {
        assert(p[0] == x);
        assert(p.drop_first() =~= Seq::<Seq<char>>::empty());
        assert(parse_qs_from(acc, p) == parse_qs_from(add_pair(acc, x), p.drop_first()));
        assert(parse_qs_from(add_pair(acc, x), p.drop_first()) == add_pair(acc, x));
        assert(parse_qs_from(acc, pairs) == acc);
    } else {
        assert(p[0] == pairs[0]);
        assert(p.drop_first() =~= pairs.drop_first().push(x));
        let acc2 = add_pair(acc, pairs[0]);
        assert(parse_qs_from(acc, p) == parse_qs_from(acc2, p.drop_first()));
        lemma_parse_qs_push(acc2, pairs.drop_first(), x);
        assert(parse_qs_from(acc, pairs) == parse_qs_from(acc2, pairs.drop_first()));
    }
}

/// Parse a query string: `&`-separated `key=value` pairs, keys and values
/// percent-decoded, repeated keys comma-joined in encounter order, empty
/// pairs skipped, and a key without `=` mapped to the empty string.
pub fn parse_query_string(query_str: &str) -> (r: StringMap)
    ensures
        r@ == parse_query_string_spec(query_str@),
{
    let chars = chars_of(query_str);
    let pairs = split_chars(&chars, '&');
    let ghost pairsv = pairs@.map_values(|p: Vec<char>| p@);
    proof {
        assert(pairsv == split_char(query_str@, '&'));
    }
    let mut r = StringMap::new();
    let mut i: usize = 0;
    while i < pairs.len()
        invariant
            i <= pairs@.len(),
            r@ == parse_qs_from(Seq::empty(), pairsv.take(i as int)),
        decreases pairs@.len() - i,
    {
        proof {
            assert(pairsv.take(i as int).push(pairsv[i as int]) =~= pairsv.take(i as int + 1));
            lemma_parse_qs_push(Seq::empty(), pairsv.take(i as int), pairsv[i as int]);
            assert(pairsv[i as int] == pairs@[i as int]@);
        }
        let pair = &pairs[i];
        if pair.len() > 0 {
            let e = find_char(pair, '=');
            proof {
                lemma_first_index_of(pair@, '=');
                assert(e == eq_pos(pair@));
            }
            let mut key_raw: Vec<char> = Vec::new();
            let mut j: usize = 0;
            while j < e
                invariant
                    j <= e <= pair@.len(),
                    key_raw@ == pair@.take(j as int),
                decreases e - j,
            {
                key_raw.push(pair[j]);
                j = j + 1;
                proof {
                    assert(key_raw@ =~= pair@.take(j as int));
                }
            }
            let key = percent_decode(string_of(&key_raw).as_str());
            let value: String = if e < pair.len() {
                let mut value_raw: Vec<char> = Vec::new();
                let mut k: usize = e + 1;
                while k < pair.len()
                    invariant
                        e + 1 <= k <= pair@.len(),
                        value_raw@ == pair@.subrange(e as int + 1, k as int),
                    decreases pair@.len() - k,
                {
                    value_raw.push(pair[k]);
                    k = k + 1;
                    proof {
                        assert(value_raw@ =~= pair@.subrange(e as int + 1, k as int));
                    }
                }
                proof {
                    assert(value_raw@ =~= pair@.skip(e as int + 1));
                }
                percent_decode(string_of(&value_raw).as_str())
            } else {
                String::new()
            };
            let joined: String = match r.get(&key) {
                Some(existing) => {
                    let mut combined: Vec<char> = chars_of(existing.as_str());
                    combined.push(',');
                    let vchars = chars_of(value.as_str());
                    let mut m: usize = 0;
                    while m < vchars.len()
                        invariant
                            m <= vchars@.len(),
                            combined@ == sm_get(r@, key@)->0 + seq![','] + vchars@.take(
                                m as int,
                            ),
                        decreases vchars@.len() - m,
                    {
                        combined.push(vchars[m]);
                        m = m + 1;
                        proof {
                            assert(combined@ =~= sm_get(r@, key@)->0 + seq![','] + vchars@.take(
                                m as int,
                            ));
                        }
                    }
                    proof {
                        assert(vchars@.take(vchars@.len() as int) =~= vchars@);
                    }
                    string_of(&combined)
                },
                None => value,
            };
            r.insert(key, joined);
        }
        i = i + 1;
    }
    proof {
        assert(pairsv.take(pairsv.len() as int) =~= pairsv);
    }
    r
}

/// Whether query parameters satisfy a criterion: an expression criterion is
/// evaluated against the parameters seen as a JSON object with
/// comma-separated multi-values as arrays; a map criterion is an
/// intersection check.
pub open spec fn query_matches_spec(
    expected: Option<Seq<(Seq<char>, Seq<char>)>>,
    query_expr: Option<Seq<char>>,
    actual: Seq<(Seq<char>, Seq<char>)>,
) -> bool {
    match query_expr {
        Some(e) => expression_matches(e, sm_to_value(actual)),
        None => sm_intersects(expected, Some(actual)),
    }
}

/// Match query parameters against a JMESPath expression.
pub fn match_query_with_expression(expression: &str, query_params: &StringMap) -> (r: bool)
    ensures
        r == expression_matches(expression@, sm_to_value(query_params@)),
{
    let query_json = hashmap_to_value(query_params);
    crate::expression::match_with_jmespath(expression, &query_json)
}

/// Match query parameters using either map intersection or a JMESPath
/// expression; an expression, when given, takes precedence.
pub fn query_matches(
    expected: Option<&StringMap>,
    query_expr: Option<&str>,
    actual: &StringMap,
) -> (r: bool)
    ensures
        r == query_matches_spec(
            match expected {
                Some(e) => Some(e@),
                None => None,
            },
            match query_expr {
                Some(e) => Some(e@),
                None => None,
            },
            actual@,
        ),
{
    if let Some(expr) = query_expr {
        return match_query_with_expression(expr, actual);
    }
    hashmap_intersects(expected, Some(actual))
}

} // verus!
