//! Captured parameters and body preflight, exercised with the real
//! media-type parser and serde decoders.

use tsukuyomi::app::{app, RouterResult};
use tsukuyomi::extract::{Body, ExtractBodyError, JsonDecoder, PlainTextDecoder, UrlencodedDecoder};
use tsukuyomi::input::{param_value, Input};
use tsukuyomi::method::Method;
use tsukuyomi::scope::route;

fn input_with_content_type(value: &str) -> Input {
    Input::new(
        Method::Post,
        "/".to_string(),
        vec![("content-type".to_string(), value.to_string())],
    )
}

#[test]
fn params() {
    let app = app()
        .with(route().uri("/:id/:name/*path"))
        .build()
        .unwrap();

    let extract = |path: &str| -> String {
        match app.data.route(path, Method::Get) {
            RouterResult::FoundEndpoint {
                resource: Some(idx),
                captures,
                ..
            } => {
                let names = &app.data.resources[idx].capture_names;
                let id = param_value(path, names, &captures, "id").unwrap();
                let name = param_value(path, names, &captures, "name").unwrap();
                let wildcard = param_value(path, names, &captures, "path").unwrap();
                format!("{},{},{}", id, name, wildcard)
            }
            other => panic!("unexpected result: {:?}", other),
        }
    };

    assert_eq!(extract("/23/bob/path/to/file"), "23,bob,path/to/file");
    assert_eq!(extract("/42/alice/"), "42,alice,");
}

#[test]
fn plain_body() {
    let body = Body::new(PlainTextDecoder);

    let ok = input_with_content_type("text/plain; charset=utf-8");
    assert!(body.preflight(&ok).is_ok());
    let decoded: String =
        serde_plain::from_str("The quick brown fox jumps over the lazy dog").unwrap();
    assert_eq!(decoded, "The quick brown fox jumps over the lazy dog");

    let wrong_type = input_with_content_type("application/graphql");
    let err = body.preflight(&wrong_type).unwrap_err();
    assert_eq!(err.status(), 400);

    let wrong_charset = input_with_content_type("text/plain; charset=euc-jp");
    let err = body.preflight(&wrong_charset).unwrap_err();
    assert_eq!(err.status(), 400);
    assert!(matches!(err, ExtractBodyError::NotUtf8Charset));
}

#[test]
fn json_body() {
    let body = Body::new(JsonDecoder);

    let ok = input_with_content_type("application/json");
    assert!(body.preflight(&ok).is_ok());
    let v: serde_json::Value = serde_json::from_slice(b"{\"id\":23, \"name\":\"bob\"}").unwrap();
    let rendered = format!(
        "{},{}",
        v.get("id").unwrap().as_i64().unwrap(),
        v.get("name").unwrap().as_str().unwrap()
    );
    assert_eq!(rendered, "23,bob");

    let wrong_type = input_with_content_type("application/graphql");
    assert_eq!(body.preflight(&wrong_type).unwrap_err().status(), 400);

    let invalid: Result<serde_json::Value, _> =
        serde_json::from_slice(b"THIS_IS_INVALID_JSON_DATA");
    let err = ExtractBodyError::InvalidContent {
        cause: invalid.unwrap_err().to_string(),
    };
    assert_eq!(err.status(), 400);
}

#[test]
fn urlencoded_body() {
    let body = Body::new(UrlencodedDecoder);

    let ok = input_with_content_type("application/x-www-form-urlencoded");
    assert!(body.preflight(&ok).is_ok());
    let pairs: Vec<(String, String)> = serde_urlencoded::from_bytes(b"id=23&name=bob").unwrap();
    let rendered = format!("{},{}", pairs[0].1, pairs[1].1);
    assert_eq!(rendered, "23,bob");

    let wrong_type = input_with_content_type("application/graphql");
    assert_eq!(body.preflight(&wrong_type).unwrap_err().status(), 400);

    let invalid: Result<Vec<(String, String)>, _> =
        serde_urlencoded::from_bytes(b"THIS_IS_INVALID_FORM_DATA");
    match invalid {
        Ok(pairs) => {
            // A bare word parses as one key with an empty value; a typed
            // decode would still fail on its missing fields.
            assert_eq!(pairs.len(), 1);
        }
        Err(_) => {}
    }
}

#[test]
fn local_data() {
    let mut input = Input::new(Method::Get, "/".to_string(), vec![]);
    const KEY: u64 = 7;
    assert!(input.locals.insert(KEY, "dummy".to_string()));
    let value = tsukuyomi::extractor::local::clone(&input, KEY).unwrap();
    assert_eq!(value, "dummy");
    let removed = tsukuyomi::extractor::local::remove(&mut input, KEY).unwrap();
    assert_eq!(removed, "dummy");
}

#[test]
fn missing_local_data() {
    let mut input = Input::new(Method::Get, "/".to_string(), vec![]);
    const KEY: u64 = 7;
    let err = tsukuyomi::extractor::local::remove(&mut input, KEY).unwrap_err();
    assert_eq!(err.status, 500);
}
