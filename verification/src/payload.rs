//! Request payload matching: structural intersection or a JMESPath
//! expression.

use vstd::prelude::*;
use crate::expression::expression_matches;
use crate::intersect::{object_intersects, object_intersects_spec};
use crate::json::{deep_eq, value_eq, Value, ValueV};

verus! {

/// Whether a request payload satisfies a criterion: an expression criterion
/// is evaluated against the payload; a value criterion is an intersection
/// check, except that two non-object values are compared for equality, a
/// subset of a scalar not being meaningful; no criterion matches anything.
pub open spec fn payload_matches_spec(
    expected: Option<ValueV>,
    payload_expr: Option<Seq<char>>,
    request_payload: ValueV,
) -> bool {
    match payload_expr {
        Some(e) => expression_matches(e, request_payload),
        None => match expected {
            Some(exp) => if !(exp is Object) && !(request_payload is Object) {
                value_eq(request_payload, exp)
            } else {
                object_intersects_spec(Some(request_payload), Some(exp))
            },
            None => true,
        },
    }
}

/// Match a request payload using either value intersection or a JMESPath
/// expression; an expression, when given, takes precedence.
pub fn payload_matches(
    payload: Option<&Value>,
    payload_expr: Option<&str>,
    request_payload: &Value,
) -> (r: bool)
    ensures
        r == payload_matches_spec(
            match payload {
                Some(p) => Some(p@),
                None => None,
            },
            match payload_expr {
                Some(e) => Some(e@),
                None => None,
            },
            request_payload@,
        ),
{
    if let Some(expr) = payload_expr {
        return crate::expression::match_with_jmespath(expr, request_payload);
    }
    let expected = match payload {
        None => {
            return true;
        },
        Some(p) => p,
    };
    let exp_is_object = match expected {
        Value::Object(_) => true,
        _ => false,
    };
    let req_is_object = match request_payload {
        Value::Object(_) => true,
        _ => false,
    };
    proof {
        crate::json::lemma_view_kinds(expected);
        crate::json::lemma_view_kinds(request_payload);
    }
    if !exp_is_object && !req_is_object {
        deep_eq(request_payload, expected)
    } else {
        object_intersects(Some(request_payload), Some(expected))
    }
}

} // verus!
