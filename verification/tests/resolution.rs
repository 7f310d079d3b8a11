//! Tests of route references, the manager and collection resolution.

use mockito_core::manager::{MocksManager, ResolveError};
use mockito_core::types::{Collection, HttpMethod, Preset, Route, RouteReference, Transport, Variant};

fn test_route(id: &str) -> Route {
    Route {
        id: id.to_string(),
        url: format!("/api/{}", id),
        transport: Transport::Http,
        method: Some(HttpMethod::Get),
        presets: vec![],
    }
}

fn test_preset(id: &str) -> Preset {
    Preset {
        id: id.to_string(),
        params: None,
        query: None,
        headers: None,
        payload: None,
        variants: vec![],
    }
}

fn test_variant(id: &str) -> Variant {
    Variant { id: id.to_string(), status: Some(200), headers: None, body: None }
}

fn route_with(id: &str, preset: &str, variant: &str) -> Route {
    let mut r = test_route(id);
    let mut p = test_preset(preset);
    p.variants.push(test_variant(variant));
    r.presets.push(p);
    r
}

fn collection(id: &str, from: Option<&str>, routes: &[&str]) -> Collection {
    Collection {
        id: id.to_string(),
        from: from.map(|f| f.to_string()),
        routes: routes.iter().map(|r| (*r).to_string()).collect(),
    }
}

#[test]
fn route_reference_parse_valid() {
    let r = RouteReference::parse("route1:preset1:variant1").expect("should parse");
    assert_eq!(r.route_id, "route1");
    assert_eq!(r.preset_id, "preset1");
    assert_eq!(r.variant_id, "variant1");

    let r = RouteReference::parse("a:b:c").expect("should parse");
    assert_eq!(r.route_id, "a");
    assert_eq!(r.preset_id, "b");
    assert_eq!(r.variant_id, "c");

    let r = RouteReference::parse("route-id:preset-id:variant-id").expect("should parse");
    assert_eq!(r.route_id, "route-id");
    assert_eq!(r.preset_id, "preset-id");
    assert_eq!(r.variant_id, "variant-id");
}

#[test]
fn route_reference_parse_invalid() {
    for input in ["", "route1", "route1:preset1", "route1:preset1:variant1:extra",
        ":preset1:variant1", "route1::variant1", "route1:preset1:", "::"] {
        assert!(RouteReference::parse(input).is_none(), "{} should not parse", input);
    }
}

#[test]
fn resolve_simple_collection() {
    let mut manager = MocksManager::new();
    manager.add_route(route_with("route1", "preset1", "variant1"));
    manager.add_collection(collection("collection1", None, &["route1:preset1:variant1"]));

    let result = manager.resolve_collection(&"collection1".to_string()).unwrap();
    assert_eq!(result.len(), 1);
    assert_eq!(result[0].route.id, "route1");
    assert_eq!(result[0].preset.id, "preset1");
    assert_eq!(result[0].variant.id, "variant1");
}

#[test]
fn resolve_collection_with_inheritance() {
    let mut manager = MocksManager::new();
    manager.add_route(route_with("route1", "preset1", "variant1"));
    manager.add_route(route_with("route2", "preset2", "variant2"));
    manager.add_collection(collection("parent", None, &["route1:preset1:variant1"]));
    manager.add_collection(collection("child", Some("parent"), &["route2:preset2:variant2"]));

    let result = manager.resolve_collection(&"child".to_string()).unwrap();
    assert_eq!(result.len(), 2);
    assert_eq!(result[0].route.id, "route1");
    assert_eq!(result[1].route.id, "route2");
}

#[test]
fn resolve_collection_child_overrides_parent() {
    let mut manager = MocksManager::new();
    let mut route = test_route("route1");
    let mut preset1 = test_preset("preset1");
    preset1.variants.push(test_variant("variant1"));
    let mut preset2 = test_preset("preset2");
    preset2.variants.push(test_variant("variant2"));
    route.presets.push(preset1);
    route.presets.push(preset2);
    manager.add_route(route);
    manager.add_collection(collection("parent", None, &["route1:preset1:variant1"]));
    manager.add_collection(collection("child", Some("parent"), &["route1:preset2:variant2"]));

    let result = manager.resolve_collection(&"child".to_string()).unwrap();
    assert_eq!(result.len(), 1);
    assert_eq!(result[0].route.id, "route1");
    assert_eq!(result[0].preset.id, "preset2");
    assert_eq!(result[0].variant.id, "variant2");
}

#[test]
fn resolve_collection_circular_dependency() {
    let mut manager = MocksManager::new();
    manager.add_collection(collection("A", Some("B"), &[]));
    manager.add_collection(collection("B", Some("A"), &[]));

    let result = manager.resolve_collection(&"A".to_string());
    assert!(matches!(result.unwrap_err(), ResolveError::CircularDependency { .. }));
}

#[test]
fn resolve_collection_self_cycle() {
    let mut manager = MocksManager::new();
    manager.add_collection(collection("A", Some("A"), &[]));
    let result = manager.resolve_collection(&"A".to_string());
    assert!(matches!(result.unwrap_err(), ResolveError::CircularDependency { .. }));
}

#[test]
fn resolve_collection_diamond_reuse_is_allowed() {
    // The same ancestor may be reached through two children resolved one
    // after the other; only a true cycle on one walk's path is an error.
    let mut manager = MocksManager::new();
    manager.add_route(route_with("route1", "preset1", "variant1"));
    manager.add_collection(collection("base", None, &["route1:preset1:variant1"]));
    manager.add_collection(collection("left", Some("base"), &[]));
    manager.add_collection(collection("right", Some("base"), &[]));

    assert_eq!(manager.resolve_collection(&"left".to_string()).unwrap().len(), 1);
    assert_eq!(manager.resolve_collection(&"right".to_string()).unwrap().len(), 1);
}

#[test]
fn resolve_collection_not_found() {
    let manager = MocksManager::new();
    let result = manager.resolve_collection(&"nonexistent".to_string());
    assert!(matches!(result.unwrap_err(), ResolveError::CollectionNotFound { .. }));
}

#[test]
fn resolve_collection_route_not_found() {
    let mut manager = MocksManager::new();
    manager.add_collection(collection("collection1", None, &["nonexistent:preset1:variant1"]));
    let result = manager.resolve_collection(&"collection1".to_string());
    assert!(matches!(result.unwrap_err(), ResolveError::RouteNotFound { .. }));
}

#[test]
fn resolve_collection_invalid_reference() {
    let mut manager = MocksManager::new();
    manager.add_collection(collection("collection1", None, &["invalid-format"]));
    let result = manager.resolve_collection(&"collection1".to_string());
    assert!(matches!(result.unwrap_err(), ResolveError::InvalidRouteReference { .. }));
}

#[test]
fn resolve_collection_preset_not_found() {
    let mut manager = MocksManager::new();
    manager.add_route(test_route("route1"));
    manager.add_collection(collection("collection1", None, &["route1:preset1:variant1"]));
    let result = manager.resolve_collection(&"collection1".to_string());
    assert!(matches!(result.unwrap_err(), ResolveError::PresetNotFound { .. }));
}

#[test]
fn resolve_collection_variant_not_found() {
    let mut manager = MocksManager::new();
    let mut route = test_route("route1");
    route.presets.push(test_preset("preset1"));
    manager.add_route(route);
    manager.add_collection(collection("collection1", None, &["route1:preset1:variant1"]));
    let result = manager.resolve_collection(&"collection1".to_string());
    assert!(matches!(result.unwrap_err(), ResolveError::VariantNotFound { .. }));
}

#[test]
fn resolve_collection_multiple_levels() {
    let mut manager = MocksManager::new();
    manager.add_route(route_with("route1", "preset1", "variant1"));
    manager.add_route(route_with("route2", "preset2", "variant2"));
    manager.add_route(route_with("route3", "preset3", "variant3"));
    manager.add_collection(collection("grandparent", None, &["route1:preset1:variant1"]));
    manager.add_collection(collection("parent", Some("grandparent"), &["route2:preset2:variant2"]));
    manager.add_collection(collection("child", Some("parent"), &["route3:preset3:variant3"]));

    let result = manager.resolve_collection(&"child".to_string()).unwrap();
    assert_eq!(result.len(), 3);
    assert_eq!(result[0].route.id, "route1");
    assert_eq!(result[1].route.id, "route2");
    assert_eq!(result[2].route.id, "route3");
}

#[test]
fn resolve_collection_is_idempotent() {
    let mut manager = MocksManager::new();
    manager.add_route(route_with("route1", "preset1", "variant1"));
    manager.add_route(route_with("route2", "preset2", "variant2"));
    manager.add_collection(collection("parent", None, &["route1:preset1:variant1"]));
    manager.add_collection(collection(
        "child",
        Some("parent"),
        &["route2:preset2:variant2", "route1:preset1:variant1"],
    ));

    let first = manager.resolve_collection(&"child".to_string()).unwrap();
    let second = manager.resolve_collection(&"child".to_string()).unwrap();
    assert_eq!(first.len(), second.len());
    for (a, b) in first.iter().zip(second.iter()) {
        assert_eq!(a.route.id, b.route.id);
        assert_eq!(a.preset.id, b.preset.id);
        assert_eq!(a.variant.id, b.variant.id);
    }
}

#[test]
fn add_collections_and_routes_in_bulk() {
    let mut manager = MocksManager::new();
    manager.add_routes(&vec![
        route_with("route1", "preset1", "variant1"),
        route_with("route2", "preset2", "variant2"),
    ]);
    manager.add_collections(&vec![
        collection("collection1", None, &["route1:preset1:variant1"]),
        collection("collection2", None, &["route2:preset2:variant2"]),
    ]);

    assert_eq!(manager.resolve_collection(&"collection1".to_string()).unwrap().len(), 1);
    assert_eq!(manager.resolve_collection(&"collection2".to_string()).unwrap().len(), 1);
}

#[test]
fn last_insert_wins_for_duplicate_identifiers() {
    let mut manager = MocksManager::new();
    manager.add_route(route_with("route1", "first", "variant1"));
    manager.add_route(route_with("route1", "second", "variant2"));
    manager.add_collection(collection("c", None, &["route1:second:variant2"]));

    let result = manager.resolve_collection(&"c".to_string()).unwrap();
    assert_eq!(result.len(), 1);
    assert_eq!(result[0].preset.id, "second");

    // The replaced route no longer offers its old preset.
    let mut manager2 = MocksManager::new();
    manager2.add_route(route_with("route1", "first", "variant1"));
    manager2.add_route(route_with("route1", "second", "variant2"));
    manager2.add_collection(collection("c", None, &["route1:first:variant1"]));
    let result = manager2.resolve_collection(&"c".to_string());
    assert!(matches!(result.unwrap_err(), ResolveError::PresetNotFound { .. }));
}

#[test]
fn resolve_error_messages() {
    let e = ResolveError::CollectionNotFound { collection_id: "test".to_string() };
    let msg = e.message();
    assert!(msg.contains("Collection not found"));
    assert!(msg.contains("test"));

    let e = ResolveError::RouteNotFound { route_id: "route1".to_string() };
    let msg = e.message();
    assert!(msg.contains("Route not found"));
    assert!(msg.contains("route1"));

    let e = ResolveError::PresetNotFound {
        route_id: "route1".to_string(),
        preset_id: "preset1".to_string(),
    };
    let msg = e.message();
    assert!(msg.contains("Preset"));
    assert!(msg.contains("route1"));
    assert!(msg.contains("preset1"));

    let e = ResolveError::VariantNotFound {
        route_id: "route1".to_string(),
        preset_id: "preset1".to_string(),
        variant_id: "variant1".to_string(),
    };
    let msg = e.message();
    assert!(msg.contains("Variant"));
    assert!(msg.contains("variant1"));

    let e = ResolveError::InvalidRouteReference { reference: "invalid".to_string() };
    let msg = e.message();
    assert!(msg.contains("Invalid route reference"));
    assert!(msg.contains("invalid"));

    let e = ResolveError::CircularDependency { collection_id: "A".to_string() };
    let msg = e.message();
    assert!(msg.contains("Circular dependency"));
    assert!(msg.contains("A"));
}
