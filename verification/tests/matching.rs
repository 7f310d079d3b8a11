//! Tests of the matching primitives: value intersection, header matching,
//! URL templates, query parsing and payload matching.

use mockito_core::headers::headers_intersects;
use mockito_core::intersect::{hashmap_intersects, hashmap_to_value, object_intersects};
use mockito_core::json::{deep_eq, jmespath_result_to_bool, Value};
use mockito_core::payload::payload_matches;
use mockito_core::query::{parse_query_string, query_matches};
use mockito_core::strmap::StringMap;
use mockito_core::urlmatch::url_matches;

fn sm(pairs: &[(&str, &str)]) -> StringMap {
    let mut m = StringMap::new();
    for (k, v) in pairs {
        m.insert((*k).to_string(), (*v).to_string());
    }
    m
}

fn obj(entries: Vec<(&str, Value)>) -> Value {
    Value::Object(entries.into_iter().map(|(k, v)| (k.to_string(), v)).collect())
}

fn s(x: &str) -> Value {
    Value::String(x.to_string())
}

fn n(x: i64) -> Value {
    Value::Number(x)
}

fn get<'a>(m: &'a StringMap, k: &str) -> Option<&'a String> {
    m.get(&k.to_string())
}

#[test]
fn object_intersects_vacuous_subset() {
    let target = obj(vec![("a", n(1))]);
    assert!(object_intersects(Some(&target), None));
    assert!(object_intersects(Some(&target), Some(&Value::Null)));
    assert!(object_intersects(Some(&target), Some(&obj(vec![]))));
    assert!(object_intersects(None, None));
    assert!(object_intersects(None, Some(&Value::Null)));
}

#[test]
fn object_intersects_absent_target() {
    let subset = obj(vec![("a", n(1))]);
    assert!(!object_intersects(None, Some(&subset)));
    assert!(!object_intersects(Some(&Value::Null), Some(&subset)));
}

#[test]
fn object_intersects_shallow() {
    let target = obj(vec![("a", n(1)), ("b", n(2))]);
    assert!(object_intersects(Some(&target), Some(&obj(vec![("a", n(1))]))));
    assert!(!object_intersects(Some(&target), Some(&obj(vec![("a", n(2))]))));
    assert!(!object_intersects(Some(&target), Some(&obj(vec![("c", n(1))]))));
}

#[test]
fn object_intersects_nested() {
    let target = obj(vec![("user", obj(vec![("name", s("John")), ("age", n(30))]))]);
    assert!(object_intersects(
        Some(&target),
        Some(&obj(vec![("user", obj(vec![("name", s("John"))]))])),
    ));
    assert!(!object_intersects(
        Some(&target),
        Some(&obj(vec![("user", obj(vec![("name", s("Jane"))]))])),
    ));
}

#[test]
fn object_intersects_arrays_unordered_containment() {
    let target = obj(vec![(
        "items",
        Value::Array(vec![obj(vec![("id", n(1))]), obj(vec![("id", n(2))])]),
    )]);
    let yes = obj(vec![("items", Value::Array(vec![obj(vec![("id", n(1))])]))]);
    let no = obj(vec![("items", Value::Array(vec![obj(vec![("id", n(4))])]))]);
    assert!(object_intersects(Some(&target), Some(&yes)));
    assert!(!object_intersects(Some(&target), Some(&no)));
}

#[test]
fn object_intersects_scalars() {
    assert!(object_intersects(Some(&n(1)), Some(&n(1))));
    assert!(!object_intersects(Some(&n(1)), Some(&n(2))));
    assert!(object_intersects(Some(&s("test")), Some(&s("test"))));
}

#[test]
fn deep_eq_values() {
    assert!(deep_eq(&n(3), &n(3)));
    assert!(!deep_eq(&n(3), &s("3")));
    assert!(deep_eq(
        &Value::Array(vec![n(1), n(2)]),
        &Value::Array(vec![n(1), n(2)]),
    ));
    assert!(!deep_eq(
        &Value::Array(vec![n(1), n(2)]),
        &Value::Array(vec![n(2), n(1)]),
    ));
    assert!(deep_eq(
        &obj(vec![("a", n(1)), ("b", n(2))]),
        &obj(vec![("b", n(2)), ("a", n(1))]),
    ));
}

#[test]
fn hashmap_intersects_basic() {
    assert!(hashmap_intersects(None, None));
    assert!(hashmap_intersects(Some(&sm(&[])), Some(&sm(&[]))));
    assert!(!hashmap_intersects(Some(&sm(&[("page", "1")])), None));
    assert!(!hashmap_intersects(Some(&sm(&[("page", "1")])), Some(&sm(&[]))));
    assert!(hashmap_intersects(
        Some(&sm(&[("page", "1")])),
        Some(&sm(&[("page", "1"), ("limit", "10")])),
    ));
    assert!(!hashmap_intersects(
        Some(&sm(&[("page", "1")])),
        Some(&sm(&[("page", "2")])),
    ));
    assert!(!hashmap_intersects(
        Some(&sm(&[("page", "1")])),
        Some(&sm(&[("limit", "10")])),
    ));
    assert!(hashmap_intersects(None, Some(&sm(&[("page", "1")]))));
    assert!(!hashmap_intersects(
        Some(&sm(&[("page", "1"), ("limit", "10")])),
        Some(&sm(&[("page", "1")])),
    ));
}

#[test]
fn hashmap_intersects_comma_separated_expected() {
    assert!(hashmap_intersects(
        Some(&sm(&[("tags", "important,urgent")])),
        Some(&sm(&[("tags", "important")])),
    ));
    assert!(hashmap_intersects(
        Some(&sm(&[("tags", "important,urgent")])),
        Some(&sm(&[("tags", "urgent")])),
    ));
    assert!(!hashmap_intersects(
        Some(&sm(&[("tags", "important,urgent")])),
        Some(&sm(&[("tags", "normal")])),
    ));
}

#[test]
fn hashmap_intersects_comma_separated_actual() {
    assert!(hashmap_intersects(
        Some(&sm(&[("tags", "important")])),
        Some(&sm(&[("tags", "important,urgent")])),
    ));
    assert!(hashmap_intersects(
        Some(&sm(&[("tags", "urgent")])),
        Some(&sm(&[("tags", "important,urgent")])),
    ));
    assert!(!hashmap_intersects(
        Some(&sm(&[("tags", "normal")])),
        Some(&sm(&[("tags", "important,urgent")])),
    ));
}

#[test]
fn hashmap_to_value_single_values() {
    let value = hashmap_to_value(&sm(&[("page", "1"), ("limit", "10")]));
    match value {
        Value::Object(entries) => {
            assert_eq!(entries.len(), 2);
            assert!(deep_eq(&entries[0].1, &s("1")));
            assert!(deep_eq(&entries[1].1, &s("10")));
        },
        _ => panic!("expected an object"),
    }
}

#[test]
fn hashmap_to_value_multiple_values() {
    let value = hashmap_to_value(&sm(&[("tags", "important,urgent")]));
    match value {
        Value::Object(entries) => {
            assert_eq!(entries.len(), 1);
            assert_eq!(entries[0].0, "tags");
            assert!(deep_eq(
                &entries[0].1,
                &Value::Array(vec![s("important"), s("urgent")]),
            ));
        },
        _ => panic!("expected an object"),
    }
}

#[test]
fn headers_intersects_basic() {
    assert!(headers_intersects(None, None));
    assert!(headers_intersects(Some(&sm(&[])), Some(&sm(&[]))));
    assert!(headers_intersects(
        Some(&sm(&[("Content-Type", "application/json")])),
        None,
    ));
    assert!(headers_intersects(
        Some(&sm(&[("Content-Type", "application/json")])),
        Some(&sm(&[])),
    ));
    assert!(!headers_intersects(
        Some(&sm(&[("Content-Type", "application/json")])),
        Some(&sm(&[("Content-Type", "text/plain")])),
    ));
    assert!(!headers_intersects(
        None,
        Some(&sm(&[("Content-Type", "application/json")])),
    ));
    assert!(!headers_intersects(
        Some(&sm(&[("Accept", "text/html")])),
        Some(&sm(&[("Content-Type", "application/json")])),
    ));
}

#[test]
fn headers_intersects_case_insensitive_keys() {
    assert!(headers_intersects(
        Some(&sm(&[("Content-Type", "application/json"), ("Auth", "Bearer x")])),
        Some(&sm(&[("content-type", "application/json")])),
    ));
    assert!(headers_intersects(
        Some(&sm(&[("content-type", "x")])),
        Some(&sm(&[("Content-Type", "x")])),
    ));
}

#[test]
fn url_matches_literals_and_params() {
    assert!(url_matches("/api/users", "/api/users").matched);
    assert!(url_matches("/api/users", "/api/users/").matched);
    assert!(!url_matches("/api/users", "/api/posts").matched);
    assert!(!url_matches("/api/users/{id}", "/api/users").matched);
    assert!(!url_matches("/api/users/{id}", "/api/users/123/extra").matched);
    assert!(url_matches("/", "/").matched);
    assert!(url_matches("/api/users", "/api/users?page=1").matched);
    assert!(url_matches("/api/users.json", "/api/users.json").matched);
    assert!(!url_matches("/api/users.json", "/api/usersXjson").matched);
}

#[test]
fn url_matches_extracts_params() {
    let r = url_matches("/api/users/{id}", "/api/users/123");
    assert!(r.matched);
    assert_eq!(get(&r.params, "id"), Some(&"123".to_string()));

    let r = url_matches("/api/users/{id}", "/api/users/abc-123");
    assert!(r.matched);
    assert_eq!(get(&r.params, "id"), Some(&"abc-123".to_string()));

    let r = url_matches("/api/users/{a}/posts/{b}", "/api/users/1/posts/2");
    assert!(r.matched);
    assert_eq!(get(&r.params, "a"), Some(&"1".to_string()));
    assert_eq!(get(&r.params, "b"), Some(&"2".to_string()));
}

#[test]
fn url_matches_no_match_leaves_params_empty() {
    let r = url_matches("/api/users/{id}", "/api/users/123/extra");
    assert!(!r.matched);
    assert_eq!(r.params.len(), 0);
}

#[test]
fn parse_query_string_basic() {
    let m = parse_query_string("");
    assert_eq!(m.len(), 0);

    let m = parse_query_string("page=1");
    assert_eq!(get(&m, "page"), Some(&"1".to_string()));

    let m = parse_query_string("page=1&limit=10&sort=name");
    assert_eq!(get(&m, "page"), Some(&"1".to_string()));
    assert_eq!(get(&m, "limit"), Some(&"10".to_string()));
    assert_eq!(get(&m, "sort"), Some(&"name".to_string()));
}

#[test]
fn parse_query_string_percent_decoding() {
    let m = parse_query_string("key=value%20with%20spaces");
    assert_eq!(get(&m, "key"), Some(&"value with spaces".to_string()));

    let m = parse_query_string("key%20name=value");
    assert_eq!(get(&m, "key name"), Some(&"value".to_string()));

    let m = parse_query_string("key=a%20b");
    assert_eq!(get(&m, "key"), Some(&"a b".to_string()));
}

#[test]
fn parse_query_string_repeated_keys_comma_joined() {
    let m = parse_query_string("page=1&page=2");
    assert_eq!(get(&m, "page"), Some(&"1,2".to_string()));
}

#[test]
fn parse_query_string_empty_pairs_skipped() {
    let m = parse_query_string("page=1&&limit=10");
    assert_eq!(m.len(), 2);
    let m = parse_query_string("&page=1&limit=10");
    assert_eq!(m.len(), 2);
    let m = parse_query_string("page=1&limit=10&");
    assert_eq!(m.len(), 2);
}

#[test]
fn parse_query_string_key_without_value() {
    let m = parse_query_string("page=&limit=10");
    assert_eq!(get(&m, "page"), Some(&"".to_string()));
    let m = parse_query_string("page&limit=10");
    assert_eq!(get(&m, "page"), Some(&"".to_string()));
    let m = parse_query_string("flag");
    assert_eq!(get(&m, "flag"), Some(&"".to_string()));
}

#[test]
fn query_matches_with_map() {
    let expected = sm(&[("page", "1")]);
    let actual = sm(&[("page", "1"), ("limit", "10")]);
    assert!(query_matches(Some(&expected), None, &actual));
    assert!(query_matches(None, None, &actual));
}

#[test]
fn query_matches_with_expression() {
    let actual = sm(&[("page", "1"), ("limit", "10")]);
    assert!(query_matches(None, Some("page == '1' && limit == '10'"), &actual));
    assert!(!query_matches(None, Some("page == '2'"), &actual));
    assert!(query_matches(None, Some("page != null && limit != null"), &actual));
    assert!(!query_matches(
        None,
        Some("page != null && limit != null && sort != null"),
        &actual,
    ));
}

#[test]
fn query_matches_expression_numeric() {
    let actual = sm(&[("page", "1"), ("limit", "10")]);
    assert!(query_matches(None, Some("to_number(page) > `0`"), &actual));
    assert!(!query_matches(None, Some("to_number(page) > `5`"), &actual));
    assert!(query_matches(
        None,
        Some("to_number(page) > `0` && to_number(limit) <= `100`"),
        &actual,
    ));
}

#[test]
fn query_matches_expression_over_comma_separated_values() {
    let actual = sm(&[("tags", "important,urgent,normal")]);
    assert!(query_matches(None, Some("contains(tags, 'important')"), &actual));
    assert!(!query_matches(None, Some("contains(tags, 'unimportant')"), &actual));
    assert!(query_matches(None, Some("tags[0] == 'important'"), &actual));
}

#[test]
fn payload_matches_object_intersection() {
    let body = obj(vec![("userId", n(123)), ("name", s("John"))]);
    let expected = obj(vec![("userId", n(123))]);
    assert!(payload_matches(Some(&expected), None, &body));
    let wrong = obj(vec![("userId", n(124))]);
    assert!(!payload_matches(Some(&wrong), None, &body));
}

#[test]
fn payload_matches_no_criterion() {
    let body = obj(vec![("any", s("value"))]);
    assert!(payload_matches(None, None, &body));
}

#[test]
fn payload_matches_non_object_equality() {
    assert!(payload_matches(Some(&n(5)), None, &n(5)));
    assert!(!payload_matches(Some(&n(5)), None, &n(6)));
    assert!(payload_matches(
        Some(&Value::Array(vec![n(1), n(2)])),
        None,
        &Value::Array(vec![n(1), n(2)]),
    ));
    assert!(!payload_matches(
        Some(&Value::Array(vec![n(1), n(2)])),
        None,
        &Value::Array(vec![n(1), n(2), n(3)]),
    ));
}

#[test]
fn payload_matches_expression_positions() {
    let body = obj(vec![(
        "items",
        Value::Array(vec![
            obj(vec![("id", n(1))]),
            obj(vec![("id", n(2))]),
            obj(vec![("id", n(5))]),
        ]),
    )]);
    assert!(payload_matches(None, Some("items[2].id == `5`"), &body));
    assert!(!payload_matches(None, Some("items[2].id == `10`"), &body));
    assert!(payload_matches(None, Some("contains(items[*].id, `5`)"), &body));
    assert!(!payload_matches(None, Some("contains(items[*].id, `10`)"), &body));
}

#[test]
fn payload_matches_expression_filter() {
    let body = obj(vec![(
        "users",
        Value::Array(vec![
            obj(vec![("name", s("John")), ("age", n(20))]),
            obj(vec![("name", s("Jane")), ("age", n(15))]),
        ]),
    )]);
    assert!(payload_matches(
        None,
        Some("length(users[?age > `18`].name) > `0`"),
        &body,
    ));
}

#[test]
fn payload_matches_expression_truthiness() {
    let five = obj(vec![("value", n(5))]);
    assert!(payload_matches(None, Some("value > `3`"), &five));
    assert!(!payload_matches(None, Some("value > `10`"), &five));
    assert!(payload_matches(None, Some("value"), &five));
    assert!(!payload_matches(None, Some("value - value"), &five));

    let null_value = obj(vec![("value", Value::Null)]);
    assert!(!payload_matches(None, Some("value"), &null_value));

    let text = obj(vec![("value", s("test"))]);
    assert!(payload_matches(None, Some("value"), &text));
    let empty_text = obj(vec![("value", s(""))]);
    assert!(!payload_matches(None, Some("value"), &empty_text));

    let items = obj(vec![("items", Value::Array(vec![n(1), n(2), n(3)]))]);
    assert!(payload_matches(None, Some("items"), &items));
    let empty_items = obj(vec![("items", Value::Array(vec![]))]);
    assert!(!payload_matches(None, Some("items"), &empty_items));

    let user = obj(vec![("user", obj(vec![("name", s("John"))]))]);
    assert!(payload_matches(None, Some("user"), &user));
    let empty_user = obj(vec![("user", obj(vec![]))]);
    assert!(!payload_matches(None, Some("user"), &empty_user));
}

#[test]
fn payload_matches_invalid_expression_degrades_to_no_match() {
    let body = obj(vec![("value", n(5))]);
    assert!(!payload_matches(None, Some("[invalid"), &body));
}

#[test]
fn jmespath_result_to_bool_cases() {
    assert!(jmespath_result_to_bool(&Value::Bool(true)));
    assert!(!jmespath_result_to_bool(&Value::Bool(false)));
    assert!(!jmespath_result_to_bool(&Value::Null));
    assert!(!jmespath_result_to_bool(&n(0)));
    assert!(jmespath_result_to_bool(&n(1)));
    assert!(jmespath_result_to_bool(&n(-1)));
    assert!(!jmespath_result_to_bool(&s("")));
    assert!(jmespath_result_to_bool(&s("test")));
    assert!(!jmespath_result_to_bool(&Value::Array(vec![])));
    assert!(jmespath_result_to_bool(&Value::Array(vec![n(1), n(2)])));
    assert!(!jmespath_result_to_bool(&obj(vec![])));
    assert!(jmespath_result_to_bool(&obj(vec![("key", s("value"))])));
}
