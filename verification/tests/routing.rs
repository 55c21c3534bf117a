use mikufans_bvc_server::method::Method;
use mikufans_bvc_server::request::parse_request;
use mikufans_bvc_server::router::build_plan;
use mikufans_bvc_server::router::classify_path;
use mikufans_bvc_server::router::RouteClass;

#[test]
fn classify_paths() {
    assert_eq!(classify_path(b"/resource/mikufans/x"), RouteClass::Resource);
    assert_eq!(classify_path(b"/resource/mikufans"), RouteClass::Resource);
    assert_eq!(classify_path(b"/favicon.ico"), RouteClass::Favicon);
    assert_eq!(classify_path(b"/"), RouteClass::Fallback);
    assert_eq!(classify_path(b"/not-a-real-path"), RouteClass::Fallback);
    assert_eq!(classify_path(b"/resource/mikufan"), RouteClass::Fallback);
}

/// A full GET of the resource with no Range header: 200, the full length
/// announced, the whole span streamed.
#[test]
fn whole_resource_get() {
    let head = b"GET /resource/mikufans/x HTTP/1.1\r\n\r\n";
    let req = parse_request(head).unwrap().unwrap();
    let class = classify_path(&req.path);
    assert_eq!(class, RouteClass::Resource);
    let plan = build_plan(req.method, req.headers.get(b"range"), class, Some(1000));
    assert_eq!(plan.response.status, 200);
    assert_eq!(plan.response.headers.get(b"content-length"), Some(&b"1000".to_vec()));
    assert_eq!(plan.transfer, Some((0, 1000)));
    let bytes = plan.response.encode();
    assert!(bytes.starts_with(b"HTTP/1.1 200\r\n"));
    assert!(bytes.ends_with(b"\r\n\r\n"));
}

/// A bounded range: 206 with the span's headers; the served span is
/// `[100, 199)`, as the resolver's end is exclusive.
#[test]
fn partial_resource_get() {
    let head = b"GET /resource/mikufans/x HTTP/1.1\r\nRange: bytes=100-199\r\n\r\n";
    let req = parse_request(head).unwrap().unwrap();
    let plan = build_plan(
        req.method,
        req.headers.get(b"range"),
        classify_path(&req.path),
        Some(1000),
    );
    assert_eq!(plan.response.status, 206);
    assert_eq!(plan.response.headers.get(b"accept-ranges"), Some(&b"bytes".to_vec()));
    assert_eq!(plan.response.headers.get(b"content-range"), Some(&b"bytes 100-199/1000".to_vec()));
    assert_eq!(plan.response.headers.get(b"content-length"), Some(&b"99".to_vec()));
    assert_eq!(plan.transfer, Some((100, 199)));
}

/// A HEAD with a range gets the 206 head but no byte transfer.
#[test]
fn head_request_sends_no_body() {
    let head = b"HEAD /resource/mikufans/x HTTP/1.1\r\nRange: bytes=0-9\r\n\r\n";
    let req = parse_request(head).unwrap().unwrap();
    assert_eq!(req.method, Method::Head);
    let plan = build_plan(
        req.method,
        req.headers.get(b"range"),
        classify_path(&req.path),
        Some(1000),
    );
    assert_eq!(plan.response.status, 206);
    assert_eq!(plan.response.headers.get(b"content-range"), Some(&b"bytes 0-9/1000".to_vec()));
    assert_eq!(plan.transfer, None);
}

#[test]
fn resource_plan_carries_cors_headers() {
    let plan = build_plan(Method::Get, None, RouteClass::Resource, Some(10));
    let h = &plan.response.headers;
    assert_eq!(
        h.get(b"access-control-allow-origin"),
        Some(&b"https://www.bilibili.com".to_vec())
    );
    assert_eq!(
        h.get(b"access-control-allow-methods"),
        Some(&b"GET, POST, PUT, DELETE, HEAD".to_vec())
    );
    assert_eq!(
        h.get(b"access-control-expose-headers"),
        Some(&b"Content-Length,Content-Range".to_vec())
    );
    assert_eq!(h.get(b"access-control-max-age"), Some(&b"0".to_vec()));
}

#[test]
fn unsatisfiable_range_degrades_to_whole() {
    let hdr = b"bytes=5000-6000".to_vec();
    let plan = build_plan(Method::Get, Some(&hdr), RouteClass::Resource, Some(1000));
    assert_eq!(plan.response.status, 200);
    assert_eq!(plan.response.headers.get(b"content-length"), Some(&b"1000".to_vec()));
    assert_eq!(plan.transfer, Some((0, 1000)));
}

#[test]
fn missing_resource_is_404() {
    let plan = build_plan(Method::Get, None, RouteClass::Resource, None);
    assert_eq!(plan.response.status, 404);
    assert_eq!(plan.response.headers.get(b"content-length"), Some(&b"0".to_vec()));
    assert_eq!(plan.transfer, None);
}

#[test]
fn favicon_is_empty_icon() {
    let plan = build_plan(Method::Get, None, RouteClass::Favicon, None);
    assert_eq!(plan.response.status, 200);
    assert_eq!(plan.response.headers.get(b"content-type"), Some(&b"image/icon".to_vec()));
    assert_eq!(plan.response.headers.get(b"content-length"), Some(&b"0".to_vec()));
    assert!(plan.response.body.is_none());
    assert_eq!(plan.transfer, None);
}

/// Any other path: a plain-text identification reply.
#[test]
fn fallback_is_identification_string() {
    let head = b"GET /not-a-real-path HTTP/1.1\r\n\r\n";
    let req = parse_request(head).unwrap().unwrap();
    let plan = build_plan(
        req.method,
        req.headers.get(b"range"),
        classify_path(&req.path),
        None,
    );
    assert_eq!(plan.response.status, 200);
    assert_eq!(plan.response.headers.get(b"content-type"), Some(&b"text/plain".to_vec()));
    assert_eq!(plan.response.body, Some(b"mikufans_bvc_server".to_vec()));
    assert_eq!(plan.transfer, None);
    let bytes = plan.response.encode();
    assert!(bytes.ends_with(b"\r\nmikufans_bvc_server"));
}
