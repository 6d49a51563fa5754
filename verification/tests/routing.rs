use visual_git::http::{self, Method, Request, Response, StatusCode};
use visual_git::router::{self, content_type_for_path, Router};
use visual_git::ui_assets::AssetTable;

type Handler = fn(Request, u32) -> Result<Response, String>;

fn post_handler(req: Request, state: u32) -> Result<Response, String> {
    Ok(http::json(format!("post {} {} {}", state, req.path, req.body.len())))
}

fn get_handler(_req: Request, state: u32) -> Result<Response, String> {
    Ok(http::json(format!("get {}", state)))
}

fn failing_handler(_req: Request, _state: u32) -> Result<Response, String> {
    Err("handler failed".to_string())
}

fn req(method: Method, path: &str) -> Request {
    Request { method, path: path.to_string(), body: b"xyz".to_vec() }
}

fn app() -> Router<u32, Handler> {
    router::new(7)
        .post("/refresh", post_handler as Handler)
        .get("/refresh", get_handler as Handler)
        .post("/fail", failing_handler as Handler)
}

#[test]
fn handlers_are_called_with_the_state() {
    let r = app();
    let resp = r.handle("/refresh".to_string(), req(Method::Post, "/refresh"), &AssetTable::new()).ok().unwrap();
    assert_eq!(resp.body, Some(b"post 7 /refresh 3".to_vec()));
    let resp = r.handle("/refresh".to_string(), req(Method::Get, "/refresh"), &AssetTable::new()).ok().unwrap();
    assert_eq!(resp.body, Some(b"get 7".to_vec()));
}

#[test]
fn handler_errors_are_passed_on() {
    let r = app();
    assert_eq!(r.handle("/fail".to_string(), req(Method::Post, "/fail"), &AssetTable::new()).err().unwrap(), "handler failed");
}

#[test]
fn missing_methods_are_not_allowed() {
    let r = app();
    let resp = r.handle("/fail".to_string(), req(Method::Get, "/fail"), &AssetTable::new()).ok().unwrap();
    assert!(resp.head_text().starts_with("HTTP/1.1 405 Method Not Allowed\r\n"));
}

#[test]
fn unknown_paths_are_not_found() {
    let r = app();
    let resp = r.handle("/nothing.js".to_string(), req(Method::Get, "/nothing.js"), &AssetTable::new()).ok().unwrap();
    assert!(resp.head_text().starts_with("HTTP/1.1 404 Not Found\r\n"));
    let resp = r.handle("/".to_string(), req(Method::Get, "/"), &AssetTable::new()).ok().unwrap();
    assert!(resp.head_text().starts_with("HTTP/1.1 404 Not Found\r\n"));
    assert_eq!(resp.body, None);
}

#[test]
fn unrouted_paths_serve_frontend_files() {
    let r = app();
    let mut assets = AssetTable::new();
    assets.add("/index.html".to_string(), b"<html></html>".to_vec());
    assets.add("/assets/app.js".to_string(), b"go()".to_vec());
    let resp = r.handle("/".to_string(), req(Method::Get, "/"), &assets).ok().unwrap();
    assert!(resp.head_text().starts_with("HTTP/1.1 200 OK\r\n"));
    assert!(resp.head_text().contains("Content-Type: text/html; charset=utf-8\r\n"));
    assert_eq!(resp.body, Some(b"<html></html>".to_vec()));
    let resp = r.handle("/assets/app.js".to_string(), req(Method::Post, "/assets/app.js"), &assets).ok().unwrap();
    assert!(resp.head_text().contains("Content-Type: application/javascript; charset=utf-8\r\n"));
    assert_eq!(resp.body, Some(b"go()".to_vec()));
    let resp = r.handle("/missing.css".to_string(), req(Method::Get, "/missing.css"), &assets).ok().unwrap();
    assert!(resp.head_text().starts_with("HTTP/1.1 404 Not Found\r\n"));
    // Routes come before files.
    let resp = r.handle("/refresh".to_string(), req(Method::Get, "/refresh"), &assets).ok().unwrap();
    assert_eq!(resp.body, Some(b"get 7".to_vec()));
}

#[test]
fn status_code_of_builder_matches() {
    let resp = Response::builder(StatusCode::bad_request());
    assert!(resp.head_text().starts_with("HTTP/1.1 400 Bad Request\r\n"));
}

#[test]
fn content_types_follow_the_extension() {
    assert_eq!(content_type_for_path("/index.html"), "text/html; charset=utf-8");
    assert_eq!(content_type_for_path("/assets/app.JS"), "application/javascript; charset=utf-8");
    assert_eq!(content_type_for_path("/a.mjs"), "application/javascript; charset=utf-8");
    assert_eq!(content_type_for_path("/style.css"), "text/css; charset=utf-8");
    assert_eq!(content_type_for_path("/data.json"), "application/json; charset=utf-8");
    assert_eq!(content_type_for_path("/x.js.map"), "application/json; charset=utf-8");
    assert_eq!(content_type_for_path("/logo.svg"), "image/svg+xml");
    assert_eq!(content_type_for_path("/p.PNG"), "image/png");
    assert_eq!(content_type_for_path("/p.jpeg"), "image/jpeg");
    assert_eq!(content_type_for_path("/p.jpg"), "image/jpeg");
    assert_eq!(content_type_for_path("/p.gif"), "image/gif");
    assert_eq!(content_type_for_path("/p.webp"), "image/webp");
    assert_eq!(content_type_for_path("/favicon.ico"), "image/x-icon");
    assert_eq!(content_type_for_path("/m.wasm"), "application/wasm");
    assert_eq!(content_type_for_path("/r.txt"), "text/plain; charset=utf-8");
    assert_eq!(content_type_for_path("/a.b/c"), "application/octet-stream");
    assert_eq!(content_type_for_path("noext"), "application/octet-stream");
    assert_eq!(content_type_for_path("html"), "text/html; charset=utf-8");
}
