//! Routing behaviour: registration, scopes, the asterisk target, and the
//! build failures.

use tsukuyomi::app::{app, RouterResult};
use tsukuyomi::method::Method;
use tsukuyomi::scope::{route, scope};
use tsukuyomi::tree::ScopeId;

fn endpoint_id(r: &RouterResult) -> Option<usize> {
    match r {
        RouterResult::FoundEndpoint { endpoint_id, .. } => Some(*endpoint_id),
        _ => None,
    }
}

fn not_found_scope(r: &RouterResult) -> Option<ScopeId> {
    match r {
        RouterResult::NotFound { scope, .. } => Some(*scope),
        _ => None,
    }
}

#[test]
fn empty() {
    let app = app().build().unwrap();
    assert_eq!(
        not_found_scope(&app.data.route("/", Method::Get)),
        Some(ScopeId::Global)
    );
}

#[test]
fn route_single_method() {
    let app = app().with(route()).build().unwrap();

    assert_eq!(endpoint_id(&app.data.route("/", Method::Get)), Some(0));

    assert_eq!(
        not_found_scope(&app.data.route("/path/to", Method::Get)),
        Some(ScopeId::Global)
    );
    assert!(matches!(
        app.data.route("/", Method::Post),
        RouterResult::FoundResource { .. }
    ));
}

#[test]
fn route_multiple_method() {
    let app = app()
        .with(route())
        .with(route().method(Method::Post))
        .build()
        .unwrap();

    assert_eq!(endpoint_id(&app.data.route("/", Method::Get)), Some(0));
    assert_eq!(endpoint_id(&app.data.route("/", Method::Post)), Some(1));

    assert!(matches!(
        app.data.route("/", Method::Put),
        RouterResult::FoundResource { .. }
    ));
}

#[test]
fn route_fallback_head_enabled() {
    let app = app().with(route()).build().unwrap();

    match app.data.route("/", Method::Head) {
        RouterResult::FoundEndpoint {
            endpoint_id,
            fallback_head,
            ..
        } => {
            assert_eq!(endpoint_id, 0);
            assert!(fallback_head);
        }
        other => panic!("unexpected result: {:?}", other),
    }
}

#[test]
fn route_fallback_head_disabled() {
    let app = app().with(route()).fallback_head(false).build().unwrap();

    assert!(matches!(
        app.data.route("/", Method::Head),
        RouterResult::FoundResource { .. }
    ));
}

#[test]
fn asterisk_route() {
    let app = app()
        .with(route().uri("*").method(Method::Options))
        .build()
        .unwrap();

    assert_eq!(endpoint_id(&app.data.route("*", Method::Options)), Some(0));
}

#[test]
fn asterisk_route_with_normal_routes() {
    let app = app()
        .with(route().uri("/"))
        .mount(
            scope()
                .prefix("/api")
                .with(route().uri("/posts"))
                .with(route().uri("/events")),
        )
        .with(route().uri("*").method(Method::Options))
        .build()
        .unwrap();

    assert_eq!(endpoint_id(&app.data.route("*", Method::Options)), Some(3));
}

#[test]
fn scope_simple() {
    let app = app()
        .mount(scope().with(route().uri("/a")).with(route().uri("/b")))
        .with(route().uri("/foo"))
        .mount(
            scope()
                .prefix("/c")
                .with(route().uri("/d"))
                .with(route().uri("/e")),
        )
        .build()
        .unwrap();

    assert_eq!(endpoint_id(&app.data.route("/a", Method::Get)), Some(0));
    assert_eq!(endpoint_id(&app.data.route("/b", Method::Get)), Some(1));
    assert_eq!(endpoint_id(&app.data.route("/foo", Method::Get)), Some(2));
    assert_eq!(endpoint_id(&app.data.route("/c/d", Method::Get)), Some(3));
    assert_eq!(endpoint_id(&app.data.route("/c/e", Method::Get)), Some(4));

    // A miss inside the `/c` scope is owned by that scope, not the root.
    assert_eq!(
        not_found_scope(&app.data.route("/c", Method::Get)),
        Some(ScopeId::Local(1))
    );
}

#[test]
fn scope_nested() {
    let app = app()
        .mount(
            scope()
                .with(route().uri("/foo"))
                .with(route().uri("/bar")),
        )
        .mount(
            scope()
                .prefix("/baz")
                .with(route())
                .mount(scope().with(route().uri("/foobar"))),
        )
        .with(route().uri("/hoge"))
        .build()
        .unwrap();

    assert_eq!(endpoint_id(&app.data.route("/foo", Method::Get)), Some(0));
    assert_eq!(endpoint_id(&app.data.route("/bar", Method::Get)), Some(1));
    assert_eq!(endpoint_id(&app.data.route("/baz", Method::Get)), Some(2));
    assert_eq!(
        endpoint_id(&app.data.route("/baz/foobar", Method::Get)),
        Some(3)
    );
    assert_eq!(endpoint_id(&app.data.route("/hoge", Method::Get)), Some(4));

    assert_eq!(
        not_found_scope(&app.data.route("/baz/", Method::Get)),
        Some(ScopeId::Local(2))
    );
}

#[test]
fn scope_variable() {
    const T: u64 = 1;
    let app = app()
        .state(T, "G".to_string())
        .with(route().uri("/rg"))
        .mount(
            scope().prefix("/s0").with(route().uri("/r0")).mount(
                scope()
                    .prefix("/s1")
                    .state(T, "A".to_string())
                    .with(route().uri("/r1")),
            ),
        )
        .mount(
            scope()
                .prefix("/s2")
                .state(T, "B".to_string())
                .with(route().uri("/r2"))
                .mount(
                    scope()
                        .prefix("/s3")
                        .state(T, "C".to_string())
                        .with(route().uri("/r3"))
                        .mount(scope().prefix("/s4").with(route().uri("/r4"))),
                )
                .mount(
                    scope().prefix("/s5").with(route().uri("/r5")).mount(
                        scope().prefix("/s6").with(route().uri("/r6")),
                    ),
                ),
        )
        .build()
        .unwrap();

    // ScopeId::Global sits at arena index 0; ScopeId::Local(k) at k + 1.
    let get = |idx: usize| app.data.scopes.get_state(idx, T);
    assert_eq!(get(0), Some("G".to_string()));
    assert_eq!(get(1), Some("G".to_string()));
    assert_eq!(get(2), Some("A".to_string()));
    assert_eq!(get(3), Some("B".to_string()));
    assert_eq!(get(4), Some("C".to_string()));
    assert_eq!(get(5), Some("C".to_string()));
    assert_eq!(get(6), Some("B".to_string()));
    assert_eq!(get(7), Some("B".to_string()));
}

#[test]
fn scope_candidates() {
    let app = app()
        .mount(
            scope()
                .prefix("/s0")
                .mount(
                    scope().prefix("/s1").mount(
                        scope()
                            .prefix("/s2")
                            .with(route().uri("/r0"))
                            .with(route().uri("/r1")),
                    ),
                )
                .with(route().uri("/r2")),
        )
        .mount(scope().with(route().uri("/r3")))
        .build()
        .unwrap();

    assert_eq!(
        not_found_scope(&app.data.route("/s0", Method::Get)),
        Some(ScopeId::Local(0))
    );
    assert_eq!(
        not_found_scope(&app.data.route("/s0/s1", Method::Get)),
        Some(ScopeId::Local(1))
    );
    assert_eq!(
        not_found_scope(&app.data.route("/s0/s1/s2", Method::Get)),
        Some(ScopeId::Local(2))
    );
    assert_eq!(
        not_found_scope(&app.data.route("/s0/r", Method::Get)),
        Some(ScopeId::Local(0))
    );
    assert_eq!(
        not_found_scope(&app.data.route("/r", Method::Get)),
        Some(ScopeId::Local(3))
    );
    assert_eq!(
        not_found_scope(&app.data.route("/noroute", Method::Get)),
        Some(ScopeId::Global)
    );
}

#[test]
fn failcase_duplicate_uri_and_method() {
    let app = app()
        .with(route().uri("/path"))
        .with(route().uri("/path"))
        .build();
    assert!(app.is_err());
}

#[test]
fn failcase_different_scope_at_the_same_uri() {
    let app = app()
        .with(route().uri("/path"))
        .mount(scope().with(route().uri("/path")))
        .build();
    assert!(app.is_err());
}

#[test]
fn failcase_asterisk_with_prefix() {
    let app = app()
        .prefix("/api/v1")
        .with(route().uri("*"))
        .build();
    assert!(app.is_err());
}

#[test]
fn failcase_asterisk_without_explicit_options() {
    let app = app().with(route().uri("*")).build();
    assert!(app.is_err());
}

#[test]
fn failcase_asterisk_with_explicit_get_handler() {
    let app = app()
        .with(route().uri("*").methods(vec![Method::Get, Method::Options]))
        .build();
    assert!(app.is_err());
}
