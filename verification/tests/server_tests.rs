use axum::http::{HeaderMap, HeaderValue};
use dapil::flow::{handler_step, middleware_step, multipart_boundary, Step};
use dapil::server::{address_of, ipv4_address, react, to_router_path, App, HttpMethod, ServeMode, ServerEvent, ShutdownPhase};

fn s(x: &str) -> String {
    x.to_string()
}

fn ctype(v: &[u8]) -> HeaderMap {
    let mut m = HeaderMap::new();
    m.insert(axum::http::header::CONTENT_TYPE, HeaderValue::from_bytes(v).unwrap());
    m
}

#[test]
fn new_app_plan_defaults() {
    let app = App::new();
    let plan = app.setup_and_run();
    assert_eq!(plan.address, "0.0.0.0:8080");
    assert!(plan.ipv4);
    assert!(plan.default_route);
    assert_eq!(plan.middleware_layers, 0);
    assert!(plan.routes.is_empty());
    assert!(matches!(app.serve(), ServeMode::Single));
}

#[test]
fn routes_are_planned_in_order() {
    let mut app = App::new();
    app.get(s("/items/{id}"));
    app.route("patch", s("/x"));
    app.post(s("/a/{b}/c/{d}"));
    app.put(s("/p"));
    app.delete(s("/d"));
    app.add_middleware_instance();
    app.add_middleware_instance();
    app.set_host("127.0.0.1");
    app.set_port(9000);
    let plan = app.setup_and_run();
    let paths: Vec<&str> = plan.routes.iter().map(|r| r.router_path.as_str()).collect();
    assert_eq!(paths, vec!["/items/:id", "/x", "/a/:b/c/:d", "/p", "/d"]);
    assert!(matches!(plan.routes[0].method, HttpMethod::Get));
    assert!(matches!(plan.routes[1].method, HttpMethod::Get));
    assert!(matches!(plan.routes[2].method, HttpMethod::Post));
    assert!(matches!(plan.routes[3].method, HttpMethod::Put));
    assert!(matches!(plan.routes[4].method, HttpMethod::Delete));
    assert_eq!(plan.middleware_layers, 2);
    assert!(!plan.default_route);
    assert_eq!(plan.address, "127.0.0.1:9000");
}

#[test]
fn lowercase_method_registers_uppercase() {
    let mut app = App::new();
    app.route("delete", s("/z"));
    let plan = app.setup_and_run();
    assert!(matches!(plan.routes[0].method, HttpMethod::Delete));
}

#[test]
fn workers_choose_the_serve_mode() {
    let mut app = App::new();
    app.set_workers(4);
    assert!(matches!(app.serve(), ServeMode::Forked(4)));
    assert!(matches!(app.serve_default(), ServeMode::Forked(4)));
    app.set_workers(0);
    assert!(matches!(app.serve(), ServeMode::Single));
}

#[test]
fn router_paths() {
    assert_eq!(to_router_path("/u/{user_id}/posts"), "/u/:user_id/posts");
    assert_eq!(to_router_path("/"), "/");
    assert_eq!(to_router_path("}{"), ":");
}

#[test]
fn addresses_and_families() {
    assert_eq!(address_of("::", 80), ":::80");
    assert!(!ipv4_address(":::80"));
    assert!(ipv4_address("10.0.0.1:80"));
    assert!(!ipv4_address("localhost:80"));
    assert!(!ipv4_address("1.2.3.4"));
}

#[test]
fn shutdown_reactions() {
    let r = react(ShutdownPhase::Serving, ServerEvent::Interrupt);
    assert!(matches!(r.next, ShutdownPhase::Draining));
    assert!(r.begin_shutdown);
    let r = react(ShutdownPhase::Draining, ServerEvent::Interrupt);
    assert_eq!(r.exit_code, Some(130));
    let r = react(ShutdownPhase::Draining, ServerEvent::GraceExpired);
    assert!(r.force_stop && matches!(r.next, ShutdownPhase::Stopped));
    let r = react(ShutdownPhase::Draining, ServerEvent::Finished { failed: true });
    assert!(r.stopped_gracefully && r.report_error);
    let r = react(ShutdownPhase::Serving, ServerEvent::Finished { failed: false });
    assert!(!r.report_error && matches!(r.next, ShutdownPhase::Stopped));
}

#[test]
fn multipart_boundaries() {
    let h = ctype(b"multipart/form-data; boundary=XyZ");
    assert_eq!(multipart_boundary(true, 10, &h), Some(s("XyZ")));
    assert_eq!(multipart_boundary(false, 10, &h), None);
    assert_eq!(multipart_boundary(true, 0, &h), None);
    let h2 = ctype(b"multipart/form-data; boundary=a; boundary=b");
    assert_eq!(multipart_boundary(true, 1, &h2), Some(s("a; ")));
    let h3 = ctype(b"application/json");
    assert_eq!(multipart_boundary(true, 1, &h3), None);
    let h4 = ctype(b"multipart/form-data");
    assert_eq!(multipart_boundary(true, 1, &HeaderMap::new()), None);
    assert_eq!(multipart_boundary(true, 1, &h4), None);
}

#[test]
fn steps_after_calls() {
    assert!(matches!(handler_step(true, true), Step::Await));
    assert!(matches!(handler_step(true, false), Step::Respond));
    assert!(matches!(handler_step(false, true), Step::Fail));
    assert!(matches!(middleware_step(false, false, true), Step::CallNext));
    assert!(matches!(middleware_step(false, false, false), Step::Fail));
    assert!(matches!(middleware_step(true, true, false), Step::Await));
}
