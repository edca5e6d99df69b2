use minihttp::error::ErrorKind;
use minihttp::method::Method;
use minihttp::parser::{QueryPath, RoutePath, RoutePathToken};
use minihttp::router::{Route, Router, RouterBuilder};

fn sum_router() -> Router<u32> {
    let mut b: RouterBuilder<u32> = RouterBuilder::new();
    b.get("/sum/[a]/[b]", 1).unwrap();
    b.post("/sum/[a]/[b]", 2).unwrap();
    b.get("/api/status", 3).unwrap();
    b.get("/", 4).unwrap();
    b.resource("/", "favicon.ico", "/tmp/test").unwrap();
    b.build()
}

#[test]
fn variables_bind_in_declaration_order() {
    let router = sum_router();
    match router.lookup(Method::Get, "/sum/123/876") {
        Ok(Route::Rest(h, args)) => {
            assert_eq!(h, 1);
            assert_eq!(
                args.entries,
                vec![("a".to_string(), "123".to_string()), ("b".to_string(), "876".to_string())]
            );
            assert_eq!(args.get("a"), Some("123".to_string()));
            assert_eq!(args.get("b"), Some("876".to_string()));
            assert_eq!(args.get("c"), None);
        }
        _ => panic!("expected a handler"),
    }
}

#[test]
fn method_selects_handler() {
    let router = sum_router();
    match router.lookup(Method::Post, "/sum/1/2") {
        Ok(Route::Rest(h, _)) => assert_eq!(h, 2),
        _ => panic!("expected a handler"),
    }
}

#[test]
fn static_route_has_no_arguments() {
    let router = sum_router();
    match router.lookup(Method::Get, "/api/status") {
        Ok(Route::Rest(h, args)) => {
            assert_eq!(h, 3);
            assert!(args.entries.is_empty());
        }
        _ => panic!("expected a handler"),
    }
}

#[test]
fn root_route_resolves() {
    let router = sum_router();
    match router.lookup(Method::Get, "/") {
        Ok(Route::Rest(h, _)) => assert_eq!(h, 4),
        _ => panic!("expected the root handler"),
    }
}

#[test]
fn second_registration_is_conflict() {
    let mut b: RouterBuilder<u32> = RouterBuilder::new();
    b.get("/sum/[a]/[b]", 1).unwrap();
    let e = b.get("/sum/[a]/[b]", 9).unwrap_err();
    assert_eq!(e.kind, ErrorKind::Conflict);
    let router = b.build();
    match router.lookup(Method::Get, "/sum/5/6") {
        Ok(Route::Rest(h, _)) => assert_eq!(h, 1),
        _ => panic!("first registration must stay"),
    }
}

#[test]
fn shared_prefixes_coexist() {
    let mut b: RouterBuilder<u32> = RouterBuilder::new();
    b.get("/api/a", 1).unwrap();
    b.get("/api/b", 2).unwrap();
    b.get("/api/a/[x]", 3).unwrap();
    let router = b.build();
    for (path, want) in [("/api/a", 1u32), ("/api/b", 2), ("/api/a/7", 3)] {
        match router.lookup(Method::Get, path) {
            Ok(Route::Rest(h, _)) => assert_eq!(h, want),
            _ => panic!("expected a handler for {}", path),
        }
    }
}

#[test]
fn variable_beside_static_is_route_conflict() {
    let mut b: RouterBuilder<u32> = RouterBuilder::new();
    b.get("/api/users", 1).unwrap();
    let e = b.get("/api/[id]", 2).unwrap_err();
    assert_eq!(e.kind, ErrorKind::RouteConflict);
}

#[test]
fn static_beside_variable_is_route_conflict() {
    let mut b: RouterBuilder<u32> = RouterBuilder::new();
    b.get("/api/[id]", 1).unwrap();
    let e = b.get("/api/users", 2).unwrap_err();
    assert_eq!(e.kind, ErrorKind::RouteConflict);
}

#[test]
fn differently_named_variable_is_route_conflict() {
    let mut b: RouterBuilder<u32> = RouterBuilder::new();
    b.get("/api/[id]", 1).unwrap();
    let e = b.post("/api/[name]", 2).unwrap_err();
    assert_eq!(e.kind, ErrorKind::RouteConflict);
}

#[test]
fn failed_registration_leaves_tree_unchanged() {
    let mut b: RouterBuilder<u32> = RouterBuilder::new();
    b.get("/api/[id]", 1).unwrap();
    assert!(b.get("/api/users/list", 2).is_err());
    let router = b.build();
    assert_eq!(router.lookup(Method::Get, "/api/users/list").unwrap_err().kind, ErrorKind::NotFound);
    match router.lookup(Method::Get, "/api/users") {
        Ok(Route::Rest(h, args)) => {
            assert_eq!(h, 1);
            assert_eq!(args.get("id"), Some("users".to_string()));
        }
        _ => panic!("expected the variable route"),
    }
}

#[test]
fn unknown_path_is_not_found() {
    let router = sum_router();
    assert_eq!(router.lookup(Method::Get, "/nothing/here").unwrap_err().kind, ErrorKind::NotFound);
    assert_eq!(router.lookup(Method::Get, "/sum/1").unwrap_err().kind, ErrorKind::NotFound);
    assert_eq!(router.lookup(Method::Get, "/sum/1/2/3").unwrap_err().kind, ErrorKind::NotFound);
}

#[test]
fn missing_method_is_not_found() {
    let router = sum_router();
    assert_eq!(router.lookup(Method::Delete, "/sum/1/2").unwrap_err().kind, ErrorKind::NotFound);
    assert_eq!(router.lookup(Method::Put, "/api/status").unwrap_err().kind, ErrorKind::NotFound);
}

#[test]
fn resource_resolves_to_location() {
    let router = sum_router();
    match router.lookup(Method::Get, "/favicon.ico") {
        Ok(Route::Resource { location, name }) => {
            assert_eq!(location, "/tmp/test");
            assert_eq!(name, "favicon.ico");
        }
        _ => panic!("expected the resource"),
    }
}

#[test]
fn unregistered_resource_is_not_found() {
    let router = sum_router();
    assert_eq!(router.lookup(Method::Get, "/robots.txt").unwrap_err().kind, ErrorKind::NotFound);
}

#[test]
fn resource_with_other_method_is_refused() {
    let router = sum_router();
    assert_eq!(router.lookup(Method::Post, "/favicon.ico").unwrap_err().kind, ErrorKind::Parse);
}

#[test]
fn duplicate_resource_is_conflict() {
    let mut b: RouterBuilder<u32> = RouterBuilder::new();
    b.resource("/files", "a.txt", "/tmp/a").unwrap();
    assert_eq!(b.resource("/files", "a.txt", "/tmp/b").unwrap_err().kind, ErrorKind::Conflict);
    b.resource("/files", "b.txt", "/tmp/b").unwrap();
}

#[test]
fn route_pattern_tokens() {
    let p = RoutePath::parse("/sum/[a]/[b]/").unwrap();
    assert_eq!(
        p.tokens,
        vec![
            RoutePathToken::Static("sum".to_string()),
            RoutePathToken::Variable("a".to_string()),
            RoutePathToken::Variable("b".to_string()),
        ]
    );
    assert!(RoutePath::parse("/").unwrap().tokens.is_empty());
}

#[test]
fn bad_route_pattern_is_refused() {
    assert_eq!(RoutePath::parse("/sum/a-b").unwrap_err().kind, ErrorKind::Parse);
    assert_eq!(RoutePath::parse("/sum/[a-b]").unwrap_err().kind, ErrorKind::Parse);
    let mut b: RouterBuilder<u32> = RouterBuilder::new();
    assert_eq!(b.get("/x/y.z", 1).unwrap_err().kind, ErrorKind::Parse);
}

#[test]
fn query_path_segments_and_resource() {
    let q = QueryPath::parse("/static/img/logo.png", Method::Get).unwrap();
    assert_eq!(q.tokens, vec!["static".to_string(), "img".to_string()]);
    assert_eq!(q.resource, Some("logo.png".to_string()));
    let q = QueryPath::parse("/a/b", Method::Put).unwrap();
    assert_eq!(q.tokens, vec!["a".to_string(), "b".to_string()]);
    assert_eq!(q.resource, None);
}

#[test]
fn dot_before_last_segment_is_refused() {
    assert_eq!(QueryPath::parse("/a.b/c", Method::Get).unwrap_err().kind, ErrorKind::Parse);
    assert_eq!(QueryPath::parse("/a/b%20c", Method::Get).unwrap_err().kind, ErrorKind::Parse);
}

#[test]
fn repeated_variable_keeps_last_segment() {
    let mut b: RouterBuilder<u32> = RouterBuilder::new();
    b.get("/[a]/[a]", 5).unwrap();
    let router = b.build();
    match router.lookup(Method::Get, "/x/y") {
        Ok(Route::Rest(h, args)) => {
            assert_eq!(h, 5);
            assert_eq!(args.entries.len(), 2);
            assert_eq!(args.get("a"), Some("y".to_string()));
        }
        _ => panic!("expected a handler"),
    }
}
