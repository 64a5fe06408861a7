use async_sse::upgrade;
use http_types::headers::HeaderName;
use http_types::{Response, StatusCode};

fn values(res: &Response, name: &str) -> Vec<String> {
    let name: HeaderName = name.parse().unwrap();
    match res.header(&name) {
        Some(values) => values.iter().map(|v| v.as_str().to_owned()).collect(),
        None => Vec::new(),
    }
}

#[test]
fn upgrade_marks_an_event_stream() {
    let mut res = Response::new(StatusCode::Ok);
    assert!(upgrade(res.as_mut()).is_ok());
    assert_eq!(values(&res, "cache-control"), vec!["no-cache"]);
    assert_eq!(values(&res, "Cache-Control"), vec!["no-cache"]);
    assert_eq!(values(&res, "content-type"), vec!["text/event-stream"]);
}

#[test]
fn upgrade_replaces_what_was_set() {
    let mut res = Response::new(StatusCode::Ok);
    res.insert_header("Content-Type", "text/plain").unwrap();
    res.append_header("Cache-Control", "max-age=60").unwrap();
    res.append_header("cache-control", "public").unwrap();
    res.insert_header("X-Other", "kept").unwrap();
    assert!(upgrade(res.as_mut()).is_ok());
    assert_eq!(values(&res, "cache-control"), vec!["no-cache"]);
    assert_eq!(values(&res, "content-type"), vec!["text/event-stream"]);
    assert_eq!(values(&res, "x-other"), vec!["kept"]);
    assert!(upgrade(res.as_mut()).is_ok());
    assert_eq!(values(&res, "cache-control"), vec!["no-cache"]);
    assert_eq!(values(&res, "content-type"), vec!["text/event-stream"]);
}
