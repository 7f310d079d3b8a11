//! Tests of the active-route controller: activation, overrides and request
//! matching.

use mockito_core::controller::{MocksController, Request};
use mockito_core::json::Value;
use mockito_core::manager::{MocksManager, ResolveError};
use mockito_core::strmap::StringMap;
use mockito_core::types::{
    Collection, HeadersOrExpression, HttpMethod, PayloadOrExpression, Preset, QueryOrExpression,
    Route, Transport, Variant,
};

fn sm(pairs: &[(&str, &str)]) -> StringMap {
    let mut m = StringMap::new();
    for (k, v) in pairs {
        m.insert((*k).to_string(), (*v).to_string());
    }
    m
}

fn obj(entries: Vec<(&str, Value)>) -> Value {
    Value::Object(entries.into_iter().map(|(k, v)| (k.to_string(), v)).collect())
}

fn test_route(id: &str, url: &str) -> Route {
    Route {
        id: id.to_string(),
        url: url.to_string(),
        transport: Transport::Http,
        method: Some(HttpMethod::Get),
        presets: vec![],
    }
}

fn ws_route(id: &str, url: &str) -> Route {
    Route {
        id: id.to_string(),
        url: url.to_string(),
        transport: Transport::WebSocket,
        method: None,
        presets: vec![],
    }
}

fn test_preset(id: &str) -> Preset {
    Preset {
        id: id.to_string(),
        params: None,
        query: None,
        headers: None,
        payload: None,
        variants: vec![],
    }
}

fn test_variant(id: &str) -> Variant {
    Variant { id: id.to_string(), status: Some(200), headers: None, body: None }
}

fn with_preset(mut route: Route, mut preset: Preset, variant: &str) -> Route {
    preset.variants.push(test_variant(variant));
    route.presets.push(preset);
    route
}

fn collection(id: &str, from: Option<&str>, routes: &[&str]) -> Collection {
    Collection {
        id: id.to_string(),
        from: from.map(|f| f.to_string()),
        routes: routes.iter().map(|r| (*r).to_string()).collect(),
    }
}

fn get_request(url: &str) -> Request {
    Request {
        url: url.to_string(),
        method: Some(HttpMethod::Get),
        transport: Transport::Http,
        headers: None,
        query: None,
        payload: None,
    }
}

fn refs(list: &[&str]) -> Vec<String> {
    list.iter().map(|r| (*r).to_string()).collect()
}

#[test]
fn controller_starts_empty() {
    let controller = MocksController::new(MocksManager::new());
    assert!(controller.active_collection_id().is_none());
    assert_eq!(controller.get_active_routes().len(), 0);
}

#[test]
fn use_collection_activates_and_caches() {
    let mut manager = MocksManager::new();
    manager.add_route(with_preset(test_route("route1", "/api/users"), test_preset("preset1"), "variant1"));
    manager.add_collection(collection("collection1", None, &["route1:preset1:variant1"]));

    let mut controller = MocksController::new(manager);
    assert!(controller.use_collection(&"collection1".to_string()).is_ok());
    assert_eq!(controller.active_collection_id(), Some(&"collection1".to_string()));
    assert_eq!(controller.get_active_routes().len(), 1);
}

#[test]
fn use_collection_not_found_keeps_state() {
    let mut controller = MocksController::new(MocksManager::new());
    let result = controller.use_collection(&"nonexistent".to_string());
    assert!(matches!(result.unwrap_err(), ResolveError::CollectionNotFound { .. }));
    assert!(controller.active_collection_id().is_none());
    assert_eq!(controller.get_active_routes().len(), 0);
}

#[test]
fn switch_collections_replaces_cache() {
    let mut manager = MocksManager::new();
    manager.add_route(with_preset(test_route("route1", "/api/a"), test_preset("p1"), "v1"));
    manager.add_route(with_preset(test_route("route2", "/api/b"), test_preset("p2"), "v2"));
    manager.add_collection(collection("first", None, &["route1:p1:v1"]));
    manager.add_collection(collection("second", None, &["route2:p2:v2"]));

    let mut controller = MocksController::new(manager);
    controller.use_collection(&"first".to_string()).unwrap();
    assert_eq!(controller.get_active_routes()[0].route.id, "route1");
    controller.use_collection(&"second".to_string()).unwrap();
    assert_eq!(controller.get_active_routes().len(), 1);
    assert_eq!(controller.get_active_routes()[0].route.id, "route2");
}

#[test]
fn find_route_by_url() {
    let mut manager = MocksManager::new();
    manager.add_route(with_preset(test_route("users", "/api/users"), test_preset("p"), "v"));
    manager.add_collection(collection("c", None, &["users:p:v"]));
    let mut controller = MocksController::new(manager);
    controller.use_collection(&"c".to_string()).unwrap();

    assert!(controller.find_route(&get_request("/api/users")).is_some());
    assert!(controller.find_route(&get_request("/api/users/")).is_some());
    assert!(controller.find_route(&get_request("/api/posts")).is_none());
}

#[test]
fn find_route_with_url_params() {
    let mut manager = MocksManager::new();
    let mut preset = test_preset("p");
    preset.params = Some(sm(&[("id", "123")]));
    manager.add_route(with_preset(test_route("user", "/api/users/{id}"), preset, "v"));
    manager.add_collection(collection("c", None, &["user:p:v"]));
    let mut controller = MocksController::new(manager);
    controller.use_collection(&"c".to_string()).unwrap();

    assert!(controller.find_route(&get_request("/api/users/123")).is_some());
    assert!(controller.find_route(&get_request("/api/users/456")).is_none());
}

#[test]
fn find_route_with_headers() {
    let mut manager = MocksManager::new();
    let mut preset = test_preset("p");
    preset.headers = Some(HeadersOrExpression::Values(sm(&[("authorization", "Bearer token")])));
    manager.add_route(with_preset(test_route("r", "/api/secure"), preset, "v"));
    manager.add_collection(collection("c", None, &["r:p:v"]));
    let mut controller = MocksController::new(manager);
    controller.use_collection(&"c".to_string()).unwrap();

    let mut request = get_request("/api/secure");
    request.headers = Some(sm(&[("Authorization", "Bearer token")]));
    assert!(controller.find_route(&request).is_some());

    let mut wrong = get_request("/api/secure");
    wrong.headers = Some(sm(&[("Authorization", "Bearer other")]));
    assert!(controller.find_route(&wrong).is_none());

    assert!(controller.find_route(&get_request("/api/secure")).is_none());
}

#[test]
fn find_route_with_query() {
    let mut manager = MocksManager::new();
    let mut preset = test_preset("p");
    preset.query = Some(QueryOrExpression::Values(sm(&[("page", "1")])));
    manager.add_route(with_preset(test_route("r", "/api/list"), preset, "v"));
    manager.add_collection(collection("c", None, &["r:p:v"]));
    let mut controller = MocksController::new(manager);
    controller.use_collection(&"c".to_string()).unwrap();

    // Query supplied as a parsed map.
    let mut request = get_request("/api/list");
    request.query = Some(sm(&[("page", "1"), ("limit", "10")]));
    assert!(controller.find_route(&request).is_some());

    // Query parsed from the URL.
    assert!(controller.find_route(&get_request("/api/list?page=1")).is_some());
    assert!(controller.find_route(&get_request("/api/list?page=2")).is_none());
}

#[test]
fn find_route_with_payload() {
    let mut manager = MocksManager::new();
    let mut preset = test_preset("p");
    preset.payload = Some(PayloadOrExpression::Value(obj(vec![(
        "name",
        Value::String("John".to_string()),
    )])));
    manager.add_route(with_preset(test_route("r", "/api/users"), preset, "v"));
    manager.add_collection(collection("c", None, &["r:p:v"]));
    let mut controller = MocksController::new(manager);
    controller.use_collection(&"c".to_string()).unwrap();

    let mut request = get_request("/api/users");
    request.payload = Some(obj(vec![
        ("name", Value::String("John".to_string())),
        ("age", Value::Number(30)),
    ]));
    assert!(controller.find_route(&request).is_some());

    let mut wrong = get_request("/api/users");
    wrong.payload = Some(obj(vec![("name", Value::String("Jane".to_string()))]));
    assert!(controller.find_route(&wrong).is_none());
}

#[test]
fn find_route_payload_required_but_missing() {
    let mut manager = MocksManager::new();
    let mut preset = test_preset("p");
    preset.payload = Some(PayloadOrExpression::Value(obj(vec![(
        "name",
        Value::String("John".to_string()),
    )])));
    manager.add_route(with_preset(test_route("r", "/api/users"), preset, "v"));
    manager.add_collection(collection("c", None, &["r:p:v"]));
    let mut controller = MocksController::new(manager);
    controller.use_collection(&"c".to_string()).unwrap();

    assert!(controller.find_route(&get_request("/api/users")).is_none());
}

#[test]
fn find_route_transport_mismatch() {
    let mut manager = MocksManager::new();
    manager.add_route(with_preset(test_route("r", "/api/users"), test_preset("p"), "v"));
    manager.add_collection(collection("c", None, &["r:p:v"]));
    let mut controller = MocksController::new(manager);
    controller.use_collection(&"c".to_string()).unwrap();

    let mut request = get_request("/api/users");
    request.transport = Transport::WebSocket;
    request.method = None;
    assert!(controller.find_route(&request).is_none());
}

#[test]
fn find_route_method_required_but_missing() {
    let mut manager = MocksManager::new();
    manager.add_route(with_preset(test_route("r", "/api/users"), test_preset("p"), "v"));
    manager.add_collection(collection("c", None, &["r:p:v"]));
    let mut controller = MocksController::new(manager);
    controller.use_collection(&"c".to_string()).unwrap();

    let mut request = get_request("/api/users");
    request.method = None;
    assert!(controller.find_route(&request).is_none());
}

#[test]
fn find_route_method_mismatch() {
    let mut manager = MocksManager::new();
    manager.add_route(with_preset(test_route("r", "/api/users"), test_preset("p"), "v"));
    manager.add_collection(collection("c", None, &["r:p:v"]));
    let mut controller = MocksController::new(manager);
    controller.use_collection(&"c".to_string()).unwrap();

    let mut request = get_request("/api/users");
    request.method = Some(HttpMethod::Post);
    assert!(controller.find_route(&request).is_none());
}

#[test]
fn find_route_without_declared_method_accepts_any() {
    let mut manager = MocksManager::new();
    let mut route = test_route("r", "/api/users");
    route.method = None;
    manager.add_route(with_preset(route, test_preset("p"), "v"));
    manager.add_collection(collection("c", None, &["r:p:v"]));
    let mut controller = MocksController::new(manager);
    controller.use_collection(&"c".to_string()).unwrap();

    let mut request = get_request("/api/users");
    request.method = Some(HttpMethod::Post);
    assert!(controller.find_route(&request).is_some());
}

#[test]
fn find_route_websocket() {
    let mut manager = MocksManager::new();
    manager.add_route(with_preset(ws_route("ws", "/socket"), test_preset("p"), "v"));
    manager.add_collection(collection("c", None, &["ws:p:v"]));
    let mut controller = MocksController::new(manager);
    controller.use_collection(&"c".to_string()).unwrap();

    let request = Request {
        url: "/socket".to_string(),
        method: None,
        transport: Transport::WebSocket,
        headers: None,
        query: None,
        payload: None,
    };
    assert!(controller.find_route(&request).is_some());
}

#[test]
fn find_route_first_match_wins() {
    let mut manager = MocksManager::new();
    manager.add_route(with_preset(test_route("a", "/api/{x}"), test_preset("p"), "v"));
    manager.add_route(with_preset(test_route("b", "/api/users"), test_preset("p"), "v"));
    manager.add_collection(collection("c", None, &["a:p:v", "b:p:v"]));
    let mut controller = MocksController::new(manager);
    controller.use_collection(&"c".to_string()).unwrap();

    let found = controller.find_route(&get_request("/api/users")).unwrap();
    assert_eq!(found.route.id, "a");
}

#[test]
fn use_routes_upserts_into_cache() {
    let mut manager = MocksManager::new();
    manager.add_route(with_preset(test_route("route1", "/api/a"), test_preset("p1"), "v1"));
    manager.add_route(with_preset(test_route("route2", "/api/b"), test_preset("p2"), "v2"));
    manager.add_collection(collection("c", None, &["route1:p1:v1"]));
    let mut controller = MocksController::new(manager);
    controller.use_collection(&"c".to_string()).unwrap();

    controller.use_routes(&refs(&["route2:p2:v2"])).unwrap();
    let active = controller.get_active_routes();
    assert_eq!(active.len(), 2);
    assert_eq!(active[0].route.id, "route1");
    assert_eq!(active[1].route.id, "route2");
}

#[test]
fn use_routes_switches_variant() {
    let mut manager = MocksManager::new();
    let mut route = test_route("route1", "/api/a");
    let mut preset = test_preset("p1");
    preset.variants.push(test_variant("ok"));
    preset.variants.push(test_variant("error"));
    route.presets.push(preset);
    manager.add_route(route);
    manager.add_collection(collection("c", None, &["route1:p1:ok"]));
    let mut controller = MocksController::new(manager);
    controller.use_collection(&"c".to_string()).unwrap();
    assert_eq!(controller.get_active_routes()[0].variant.id, "ok");

    controller.use_routes(&refs(&["route1:p1:error"])).unwrap();
    let active = controller.get_active_routes();
    assert_eq!(active.len(), 1);
    assert_eq!(active[0].variant.id, "error");
}

#[test]
fn use_routes_overridden_entry_moves_to_end() {
    let mut manager = MocksManager::new();
    manager.add_route(with_preset(test_route("route1", "/api/a"), test_preset("p1"), "v1"));
    manager.add_route(with_preset(test_route("route2", "/api/b"), test_preset("p2"), "v2"));
    manager.add_collection(collection("c", None, &["route1:p1:v1", "route2:p2:v2"]));
    let mut controller = MocksController::new(manager);
    controller.use_collection(&"c".to_string()).unwrap();

    controller.use_routes(&refs(&["route1:p1:v1"])).unwrap();
    let active = controller.get_active_routes();
    assert_eq!(active.len(), 2);
    assert_eq!(active[0].route.id, "route2");
    assert_eq!(active[1].route.id, "route1");
}

#[test]
fn use_routes_without_collection() {
    let mut manager = MocksManager::new();
    manager.add_route(with_preset(test_route("route1", "/api/a"), test_preset("p1"), "v1"));
    let mut controller = MocksController::new(manager);
    controller.use_routes(&refs(&["route1:p1:v1"])).unwrap();
    assert_eq!(controller.get_active_routes().len(), 1);
}

#[test]
fn use_routes_route_not_found() {
    let mut controller = MocksController::new(MocksManager::new());
    let result = controller.use_routes(&refs(&["nonexistent:p:v"]));
    assert!(matches!(result.unwrap_err(), ResolveError::RouteNotFound { .. }));
}

#[test]
fn use_routes_preset_not_found() {
    let mut manager = MocksManager::new();
    manager.add_route(test_route("route1", "/api/a"));
    let mut controller = MocksController::new(manager);
    let result = controller.use_routes(&refs(&["route1:missing:v"]));
    assert!(matches!(result.unwrap_err(), ResolveError::PresetNotFound { .. }));
}

#[test]
fn use_routes_variant_not_found() {
    let mut manager = MocksManager::new();
    let mut route = test_route("route1", "/api/a");
    route.presets.push(test_preset("p1"));
    manager.add_route(route);
    let mut controller = MocksController::new(manager);
    let result = controller.use_routes(&refs(&["route1:p1:missing"]));
    assert!(matches!(result.unwrap_err(), ResolveError::VariantNotFound { .. }));
}

#[test]
fn use_routes_invalid_reference_format() {
    let mut controller = MocksController::new(MocksManager::new());
    let result = controller.use_routes(&refs(&["bad-format"]));
    assert!(matches!(result.unwrap_err(), ResolveError::InvalidRouteReference { .. }));
}

#[test]
fn use_routes_fail_fast_leaves_cache_unchanged() {
    let mut manager = MocksManager::new();
    manager.add_route(with_preset(test_route("route1", "/api/a"), test_preset("p1"), "v1"));
    manager.add_route(with_preset(test_route("route2", "/api/b"), test_preset("p2"), "v2"));
    manager.add_collection(collection("c", None, &["route1:p1:v1"]));
    let mut controller = MocksController::new(manager);
    controller.use_collection(&"c".to_string()).unwrap();

    let result = controller.use_routes(&refs(&["route2:p2:v2", "missing:p:v"]));
    assert!(matches!(result.unwrap_err(), ResolveError::RouteNotFound { .. }));
    let active = controller.get_active_routes();
    assert_eq!(active.len(), 1);
    assert_eq!(active[0].route.id, "route1");
}

#[test]
fn use_routes_rejects_websocket_route() {
    let mut manager = MocksManager::new();
    manager.add_route(with_preset(ws_route("ws-route", "/ws"), test_preset("p1"), "v1"));
    let mut controller = MocksController::new(manager);
    let result = controller.use_routes(&refs(&["ws-route:p1:v1"]));
    let err = result.unwrap_err();
    assert!(matches!(err, ResolveError::TransportMismatch { .. }));
    assert!(err.message().contains("Use 'useSocket' instead"));
}

#[test]
fn use_socket_basic_and_merge() {
    let mut manager = MocksManager::new();
    manager.add_route(with_preset(test_route("http1", "/api/a"), test_preset("p1"), "v1"));
    manager.add_route(with_preset(ws_route("ws1", "/ws"), test_preset("p2"), "v2"));
    manager.add_collection(collection("c", None, &["http1:p1:v1"]));
    let mut controller = MocksController::new(manager);
    controller.use_collection(&"c".to_string()).unwrap();

    controller.use_socket(&refs(&["ws1:p2:v2"])).unwrap();
    let active = controller.get_active_routes();
    assert_eq!(active.len(), 2);
    assert_eq!(active[0].route.id, "http1");
    assert_eq!(active[1].route.id, "ws1");
}

#[test]
fn use_socket_switches_variant() {
    let mut manager = MocksManager::new();
    let mut route = ws_route("ws1", "/ws");
    let mut preset = test_preset("p");
    preset.variants.push(test_variant("hello"));
    preset.variants.push(test_variant("bye"));
    route.presets.push(preset);
    manager.add_route(route);
    manager.add_collection(collection("c", None, &["ws1:p:hello"]));
    let mut controller = MocksController::new(manager);
    controller.use_collection(&"c".to_string()).unwrap();

    controller.use_socket(&refs(&["ws1:p:bye"])).unwrap();
    let active = controller.get_active_routes();
    assert_eq!(active.len(), 1);
    assert_eq!(active[0].variant.id, "bye");
}

#[test]
fn use_socket_rejects_http_route() {
    let mut manager = MocksManager::new();
    manager.add_route(with_preset(test_route("http1", "/api/a"), test_preset("p1"), "v1"));
    let mut controller = MocksController::new(manager);
    let result = controller.use_socket(&refs(&["http1:p1:v1"]));
    let err = result.unwrap_err();
    assert!(matches!(err, ResolveError::TransportMismatch { .. }));
    assert!(err.message().contains("Use 'useRoutes' instead"));
}

#[test]
fn use_socket_fail_fast_leaves_cache_unchanged() {
    let mut manager = MocksManager::new();
    manager.add_route(with_preset(ws_route("ws1", "/ws"), test_preset("p"), "v"));
    let mut controller = MocksController::new(manager);
    controller.use_socket(&refs(&["ws1:p:v"])).unwrap();
    assert_eq!(controller.get_active_routes().len(), 1);

    let result = controller.use_socket(&refs(&["ws1:p:v", "missing:p:v"]));
    assert!(matches!(result.unwrap_err(), ResolveError::RouteNotFound { .. }));
    assert_eq!(controller.get_active_routes().len(), 1);
}

#[test]
fn end_to_end_param_matching() {
    let mut manager = MocksManager::new();
    let mut preset = test_preset("p");
    preset.params = Some(sm(&[("id", "123")]));
    manager.add_route(with_preset(test_route("user", "/api/users/{id}"), preset, "v"));
    manager.add_collection(collection("c", None, &["user:p:v"]));
    let mut controller = MocksController::new(manager);
    controller.use_collection(&"c".to_string()).unwrap();

    let matched = controller.find_route(&get_request("/api/users/123"));
    assert!(matched.is_some());
    assert_eq!(matched.unwrap().variant.id, "v");
    assert!(controller.find_route(&get_request("/api/users/456")).is_none());
}

#[test]
fn find_route_with_query_expression() {
    let mut manager = MocksManager::new();
    let mut preset = test_preset("p");
    preset.query = Some(QueryOrExpression::Expression("to_number(page) > `0`".to_string()));
    manager.add_route(with_preset(test_route("r", "/api/list"), preset, "v"));
    manager.add_collection(collection("c", None, &["r:p:v"]));
    let mut controller = MocksController::new(manager);
    controller.use_collection(&"c".to_string()).unwrap();

    assert!(controller.find_route(&get_request("/api/list?page=3")).is_some());
    assert!(controller.find_route(&get_request("/api/list?page=0")).is_none());
}

#[test]
fn find_route_with_payload_expression() {
    let mut manager = MocksManager::new();
    let mut preset = test_preset("p");
    preset.payload = Some(PayloadOrExpression::Expression(
        "contains(items[*].id, `5`)".to_string(),
    ));
    manager.add_route(with_preset(test_route("r", "/api/items"), preset, "v"));
    manager.add_collection(collection("c", None, &["r:p:v"]));
    let mut controller = MocksController::new(manager);
    controller.use_collection(&"c".to_string()).unwrap();

    let mut request = get_request("/api/items");
    request.payload = Some(obj(vec![(
        "items",
        Value::Array(vec![obj(vec![("id", Value::Number(5))])]),
    )]));
    assert!(controller.find_route(&request).is_some());

    let mut wrong = get_request("/api/items");
    wrong.payload = Some(obj(vec![(
        "items",
        Value::Array(vec![obj(vec![("id", Value::Number(6))])]),
    )]));
    assert!(controller.find_route(&wrong).is_none());
}
