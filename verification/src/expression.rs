//! Expression bridge: evaluation of JMESPath expressions over the library's
//! values.
//!
//! Data is serialized to JSON text (a verified serializer), handed to the
//! evaluator, and the result comes back as JSON text. A malformed
//! expression, an evaluation error, or a result that cannot be rendered as
//! JSON all degrade to "no result", never to a hard error, so a
//! misconfigured matcher excludes its route rather than aborting request
//! handling.

use vstd::prelude::*;
use crate::json::Value;
use crate::jsontext::{json_text_of, json_text_truthy, json_text_truthy_exec, to_json_text};
use crate::text::chars_of;

verus! {

/// The JSON text of the result of searching JSON-encoded data with a
/// JMESPath expression; nothing if the expression does not compile, the
/// search fails, or the result cannot be rendered as JSON. The result
/// depends on the expression and the data text alone.
pub uninterp spec fn jmes_search_text(expr: Seq<char>, data_json: Seq<char>) -> Option<Seq<char>>;

/// Relies on `jmespath::compile`, `jmespath::Variable::from_json`,
/// `jmespath::Expression::search` and `serde_json::to_string`: parses the
/// data text, evaluates the compiled expression on it, and renders the
/// result as JSON text. An expression-reference result cannot be rendered
/// and yields nothing.
#[verifier::external_body]
fn search_serialized(expression: &str, data_json: &str) -> (r: Option<String>)
    ensures
        match r {
            Some(t) => jmes_search_text(expression@, data_json@) == Some(t@),
            None => jmes_search_text(expression@, data_json@) is None,
        },
{
    let compiled = jmespath::compile(expression).ok()?;
    let data = jmespath::Variable::from_json(data_json).ok()?;
    let result = compiled.search(data).ok()?;
    if result.as_expref().is_some() {
        return None;
    }
    serde_json::to_string(result.as_ref()).ok()
}

/// The JSON text of the result of evaluating an expression on a value.
pub open spec fn evaluate_spec(expr: Seq<char>, data: crate::json::ValueV) -> Option<Seq<char>> {
    jmes_search_text(expr, json_text_of(data))
}

/// Whether an expression matches a value: its result must be truthy;
/// `false`, `null`, a zero number, an empty string, an empty array, an empty
/// object, and any evaluation failure, do not match.
pub open spec fn expression_matches(expr: Seq<char>, data: crate::json::ValueV) -> bool {
    match evaluate_spec(expr, data) {
        Some(t) => json_text_truthy(t),
        None => false,
    }
}

/// Evaluate a JMESPath expression on a value; the result is returned as
/// JSON text, or nothing on any evaluation failure.
pub fn evaluate_jmespath(expression: &str, data: &Value) -> (r: Option<String>)
    ensures
        match r {
            Some(t) => evaluate_spec(expression@, data@) == Some(t@),
            None => evaluate_spec(expression@, data@) is None,
        },
{
    let text = to_json_text(data);
    search_serialized(expression, text.as_str())
}

/// Match a value against a JMESPath expression, reading the result as a
/// boolean.
pub fn match_with_jmespath(expression: &str, data: &Value) -> (r: bool)
    ensures
        r == expression_matches(expression@, data@),
{
    match evaluate_jmespath(expression, data) {
        Some(t) => {
            let chars = chars_of(t.as_str());
            json_text_truthy_exec(&chars)
        },
        None => false,
    }
}

} // verus!
