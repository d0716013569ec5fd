//! The library's own behaviour: headers, idempotent builds, sessions,
//! cookies, static file routes and the request lifecycle.

use tsukuyomi::app::{app, App, RouterResult};
use tsukuyomi::fs::{DirEntry, EntryKind, Staticfiles};
use tsukuyomi::handler::AllowedMethods;
use tsukuyomi::input::Input;
use tsukuyomi::lifecycle::{AppFuture, DispatchAction, Response, ResponseBody};
use tsukuyomi::method::Method;
use tsukuyomi::scope::{route, scope, Builder, Error};
use tsukuyomi::session::{Session, SessionInner};
use tsukuyomi::tree::ScopeId;
use tsukuyomi::uri::PatternError;
use tsukuyomi::modifier::{Chain, Modifier};

#[test]
fn method_names_round_trip() {
    assert_eq!(Method::from_name("GET"), Some(Method::Get));
    assert_eq!(Method::from_name("OPTIONS"), Some(Method::Options));
    assert_eq!(Method::from_name("get"), None);
    assert_eq!(Method::Get.as_str(), "GET");
    assert_eq!(Method::Delete.as_str(), "DELETE");
}

#[test]
fn allow_header_lists_methods_in_order() {
    let app = app()
        .with(route().uri("/path"))
        .with(route().uri("/path").method(Method::Post))
        .build()
        .unwrap();

    match app.data.route("/path", Method::Put) {
        RouterResult::FoundResource {
            resource: Some(idx),
            ..
        } => {
            assert_eq!(
                app.data.resources[idx].allowed_methods_header(),
                "GET, POST, OPTIONS"
            );
        }
        other => panic!("unexpected result: {:?}", other),
    }

    let set = AllowedMethods::from_methods(vec![Method::Get, Method::Post, Method::Get]);
    assert_eq!(set.to_header_value(), "GET, POST");
}

#[test]
fn same_path_without_method_overlap_merges() {
    let app = app()
        .with(route().uri("/path"))
        .with(route().uri("/path").method(Method::Post))
        .build()
        .unwrap();

    match app.data.route("/path", Method::Get) {
        RouterResult::FoundEndpoint {
            resource: Some(idx),
            endpoint_id,
            ..
        } => {
            assert_eq!(endpoint_id, 0);
            assert_eq!(app.data.resources[idx].endpoints.len(), 2);
        }
        other => panic!("unexpected result: {:?}", other),
    }
}

fn sample_config() -> Builder {
    app()
        .with(route().uri("/a"))
        .mount(
            scope()
                .prefix("/c")
                .with(route().uri("/d"))
                .with(route().uri("/:x")),
        )
        .with(route().uri("/:id/:name/*rest"))
}

fn result_key(r: &RouterResult) -> String {
    match r {
        RouterResult::FoundEndpoint {
            resource,
            endpoint_id,
            fallback_head,
            ..
        } => format!("endpoint {:?} {} {}", resource, endpoint_id, fallback_head),
        RouterResult::FoundResource { resource, scope, .. } => {
            format!("resource {:?} {:?}", resource, scope)
        }
        RouterResult::NotFound { resources, scope } => {
            format!("notfound {:?} {:?}", resources, scope)
        }
    }
}

#[test]
fn building_twice_resolves_identically() {
    let first = App::configure(sample_config()).unwrap();
    let second = App::configure(sample_config()).unwrap();

    let paths = ["/a", "/c/d", "/c/zz", "/b/c/rest/of/it", "/c", "/zzz", "*", "/"];
    let methods = [Method::Get, Method::Post, Method::Head];
    for path in paths.iter() {
        for method in methods.iter() {
            assert_eq!(
                result_key(&first.data.route(path, *method)),
                result_key(&second.data.route(path, *method)),
            );
        }
    }
}

#[test]
fn pattern_errors_fail_the_build() {
    assert!(matches!(
        app().with(route().uri("/:a/:a")).build(),
        Err(Error::Pattern(PatternError::DuplicateCaptureName))
    ));
    assert!(matches!(
        app().with(route().uri("/*x/y")).build(),
        Err(Error::Pattern(PatternError::InvalidCatchAllPosition))
    ));
    assert!(matches!(
        app().with(route().uri("no-slash")).build(),
        Err(Error::Pattern(PatternError::MalformedPattern))
    ));
}

#[test]
fn method_list_parsing() {
    let set = AllowedMethods::try_from("GET, POST").unwrap();
    assert_eq!(set.to_header_value(), "GET, POST");

    let trimmed = AllowedMethods::try_from("  GET ,POST , GET ").unwrap();
    assert_eq!(trimmed.to_header_value(), "GET, POST");

    assert!(AllowedMethods::try_from("GET, TELEPORT").is_err());
    assert!(AllowedMethods::try_from("").is_err());
}

#[test]
fn session_fields() {
    let mut session = Session::new(SessionInner::Empty);
    assert!(!session.contains("user"));
    session.set("user", "alice".to_string());
    assert!(session.contains("user"));
    assert_eq!(session.get("user"), Some(&"alice".to_string()));
    session.remove("user");
    assert!(!session.contains("user"));

    session.set("key", "value".to_string());
    session.clear();
    assert!(!session.contains("key"));
    session.set("after", "x".to_string());
    assert!(!session.contains("after"));
}

#[test]
fn session_extractor_needs_storage() {
    let mut input = Input::new(Method::Get, "/".to_string(), vec![]);
    assert!(tsukuyomi::session::extractor(&input).is_err());
    input
        .locals
        .insert(tsukuyomi::session::SESSION_KEY, String::new());
    assert!(tsukuyomi::session::extractor(&input).is_ok());
}

#[test]
fn static_file_routes() {
    let files = Staticfiles::new("public".to_string());
    let entries = vec![
        DirEntry {
            name: "index.html".to_string(),
            kind: EntryKind::File,
        },
        DirEntry {
            name: "assets".to_string(),
            kind: EntryKind::Dir,
        },
    ];
    let routes = files.routes_for_entries(&entries).unwrap();
    assert_eq!(routes.len(), 2);
    assert_eq!(routes[0].pattern, "/index.html");
    assert!(!routes[0].is_dir);
    assert_eq!(routes[1].pattern, "/assets/*path");
    assert!(routes[1].is_dir);

    let odd = vec![DirEntry {
        name: "socket".to_string(),
        kind: EntryKind::Other,
    }];
    assert!(files.routes_for_entries(&odd).is_err());
}

#[test]
fn static_files_configure_registers_routes() {
    let files = Staticfiles::new("public".to_string());
    let entries = vec![
        DirEntry {
            name: "index.html".to_string(),
            kind: EntryKind::File,
        },
        DirEntry {
            name: "assets".to_string(),
            kind: EntryKind::Dir,
        },
    ];
    let mut cx = tsukuyomi::scope::Context::new(vec![]);
    files.configure(&mut cx, &entries, 10).unwrap();
    let app = App {
        data: cx.app,
    };

    match app.data.route("/index.html", Method::Get) {
        RouterResult::FoundEndpoint { handler, .. } => assert_eq!(handler, 10),
        other => panic!("unexpected result: {:?}", other),
    }
    match app.data.route("/assets/css/site.css", Method::Get) {
        RouterResult::FoundEndpoint { handler, .. } => assert_eq!(handler, 11),
        other => panic!("unexpected result: {:?}", other),
    }
}

#[test]
fn cookies_round_trip() {
    let mut input = Input::new(Method::Get, "/".to_string(), vec![]);
    assert!(input.cookies.get("name").is_none());
    input.cookies.add("name", "value");
    assert_eq!(input.cookies.get("name"), Some("value".to_string()));
    let delta = input.cookies.delta_headers();
    assert_eq!(delta, vec!["name=value".to_string()]);
    input.cookies.remove("name");
    assert!(input.cookies.get("name").is_none());
}

#[test]
fn cookie_header_seeds_the_jar() {
    let mut input = Input::new(Method::Get, "/".to_string(), vec![]);
    assert!(input.cookies.add_original("token=abc123"));
    assert_eq!(input.cookies.get("token"), Some("abc123".to_string()));
    assert!(input.cookies.delta_headers().is_empty());
    assert!(!input.cookies.add_original("no cookie here"));
}

#[test]
fn lifecycle_drives_a_request_to_completion() {
    let app = app().with(route().uri("/hello").to(42)).build().unwrap();

    let mut future = AppFuture::new();
    let outcome = app.data.route("/hello", Method::Get);
    let action = future.start(&app.data, outcome);
    match action {
        DispatchAction::CallHandler {
            handler,
            endpoint_id,
        } => {
            assert_eq!(handler, 42);
            assert_eq!(endpoint_id, 0);
        }
        other => panic!("unexpected action: {:?}", other),
    }

    future.suspend();
    let response = future.complete(
        Ok(Response {
            status: 200,
            headers: vec![],
            body: ResponseBody::Sized(vec![1, 2, 3]),
        }),
        &vec!["session=xyz".to_string()],
        &vec![("x-extra".to_string(), "1".to_string())],
    );
    assert_eq!(response.status, 200);
    assert_eq!(
        response.headers,
        vec![
            ("set-cookie".to_string(), "session=xyz".to_string()),
            ("x-extra".to_string(), "1".to_string()),
            ("content-length".to_string(), "3".to_string()),
        ]
    );
}

#[test]
fn fallback_dispatch_walks_the_scopes() {
    let app = app()
        .mount(
            scope()
                .prefix("/api")
                .fallback(9)
                .with(route().uri("/posts")),
        )
        .build()
        .unwrap();

    let mut future = AppFuture::new();
    let outcome = app.data.route("/api/nothing", Method::Get);
    match future.start(&app.data, outcome) {
        DispatchAction::CallFallback {
            fallback, scope, ..
        } => {
            assert_eq!(fallback, Some(9));
            assert_eq!(scope, ScopeId::Local(0));
        }
        other => panic!("unexpected action: {:?}", other),
    }
}

#[test]
fn content_type_is_parsed_through_the_media_type_parser() {
    let input = Input::new(
        Method::Post,
        "/".to_string(),
        vec![(
            "content-type".to_string(),
            "text/plain; charset=utf-8".to_string(),
        )],
    );
    let parsed = tsukuyomi::extract::content_type(&input).unwrap().unwrap();
    assert_eq!(parsed.type_, "text");
    assert_eq!(parsed.subtype, "plain");
    assert_eq!(parsed.charset, Some("utf-8".to_string()));

    let none = Input::new(Method::Get, "/".to_string(), vec![]);
    assert!(tsukuyomi::extract::content_type(&none).unwrap().is_none());

    let bad = Input::new(
        Method::Post,
        "/".to_string(),
        vec![("content-type".to_string(), "not a mime".to_string())],
    );
    assert!(tsukuyomi::extract::content_type(&bad).is_err());
}

#[test]
fn modifier_chain_applies_inner_first() {
    struct AddHeader(&'static str);
    impl Modifier for AddHeader {
        fn setup(
            &mut self,
            _cx: &mut tsukuyomi::scope::Context,
        ) -> Result<(), tsukuyomi::scope::Error> {
            Ok(())
        }
        fn modify(&self, mut result: Response) -> Response {
            result
                .headers
                .push(("x-order".to_string(), self.0.to_string()));
            result
        }
    }
    let chain = Chain::new(AddHeader("outer"), AddHeader("inner"));
    let out = chain.modify(Response {
        status: 200,
        headers: vec![],
        body: ResponseBody::Stream,
    });
    assert_eq!(
        out.headers,
        vec![
            ("x-order".to_string(), "inner".to_string()),
            ("x-order".to_string(), "outer".to_string()),
        ]
    );
}
