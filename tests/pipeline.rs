use minihttp::auth::{AuthBuilder, AuthManager, Authentication, IpAddress};
use minihttp::pipeline::{Action, AdmissionPool, Event, Exchange, Phase};
use minihttp::request::Stage;
use minihttp::response::ServerResponse;
use minihttp::router::{Router, RouterBuilder};
use minihttp::error::{ErrorKind, ServerError};

const HOME: IpAddress = IpAddress::V4(0x7f00_0001);
const STRANGER: IpAddress = IpAddress::V4(0x0a00_0005);

fn access() -> AuthManager {
    let mut b = AuthBuilder::new();
    b.allow_address(HOME);
    b.allow_user(Authentication::new("alice", "secret"));
    b.build()
}

fn routes() -> Router<u32> {
    let mut b: RouterBuilder<u32> = RouterBuilder::new();
    b.get("/sum/[a]/[b]", 1).unwrap();
    b.resource("/", "favicon.ico", "/tmp/test").unwrap();
    b.build()
}

fn written(a: &Action<u32>) -> String {
    match a {
        Action::Write(b) => String::from_utf8_lossy(b).into_owned(),
        _ => panic!("expected a write"),
    }
}

fn line(s: &str) -> Event {
    Event::Line(s.to_string())
}

#[test]
fn stranger_is_refused_before_decoding() {
    let auth = access();
    let router = routes();
    let (mut ex, first) = Exchange::new::<u32>(STRANGER, &auth);
    assert!(written(&first).starts_with("HTTP/1.1 401"));
    assert_eq!(ex.phase, Phase::Replying);
    assert_eq!(ex.decoder.stage, Stage::Start);
    let next = ex.step(line("GET /sum/1/2?username=alice&password=secret HTTP/1.1"), &auth, &router);
    assert!(matches!(next, Action::Release));
    assert_eq!(ex.decoder.stage, Stage::Start);
    assert!(matches!(ex.step(Event::Written, &auth, &router), Action::Idle));
}

#[test]
fn allowed_peer_reaches_handler() {
    let auth = access();
    let router = routes();
    let (mut ex, first) = Exchange::new::<u32>(HOME, &auth);
    assert!(matches!(first, Action::ReadLine));
    let a = ex.step(line("GET /sum/3/4?username=alice&password=secret HTTP/1.1"), &auth, &router);
    assert!(matches!(a, Action::ReadLine));
    match ex.step(line(""), &auth, &router) {
        Action::CallHandler(h, req, args) => {
            assert_eq!(h, 1);
            assert_eq!(req.path, "/sum/3/4");
            assert_eq!(args.get("a"), Some("3".to_string()));
            assert_eq!(args.get("b"), Some("4".to_string()));
        }
        _ => panic!("expected the handler call"),
    }
    let reply = ex.step(Event::Handled(Ok(ServerResponse::json("7"))), &auth, &router);
    assert!(written(&reply).starts_with("HTTP/1.1 200 OK\r\n"));
    assert!(matches!(ex.step(Event::Written, &auth, &router), Action::Release));
    assert_eq!(ex.phase, Phase::Closed);
}

#[test]
fn failing_handler_still_releases() {
    let auth = access();
    let router = routes();
    let (mut ex, _) = Exchange::new::<u32>(HOME, &auth);
    ex.step(line("GET /sum/3/4?username=alice&password=secret HTTP/1.1"), &auth, &router);
    ex.step(Event::EndOfStream, &auth, &router);
    let reply = ex.step(Event::Handled(Err(ServerError::new(ErrorKind::NotFound, "nope"))), &auth, &router);
    assert!(written(&reply).starts_with("HTTP/1.1 404"));
    assert!(matches!(ex.step(Event::Written, &auth, &router), Action::Release));
}

#[test]
fn bad_credentials_are_unauthorized() {
    let auth = access();
    let router = routes();
    let (mut ex, _) = Exchange::new::<u32>(HOME, &auth);
    ex.step(line("GET /sum/3/4?username=alice&password=wrong HTTP/1.1"), &auth, &router);
    let reply = ex.step(line(""), &auth, &router);
    assert!(written(&reply).starts_with("HTTP/1.1 401"));
    let (mut ex, _) = Exchange::new::<u32>(HOME, &auth);
    ex.step(line("GET /sum/3/4 HTTP/1.1"), &auth, &router);
    let reply = ex.step(line(""), &auth, &router);
    assert!(written(&reply).starts_with("HTTP/1.1 401"));
    assert!(matches!(ex.step(Event::Written, &auth, &router), Action::Release));
}

#[test]
fn decode_error_is_bad_request() {
    let auth = access();
    let router = routes();
    let (mut ex, _) = Exchange::new::<u32>(HOME, &auth);
    let reply = ex.step(line("PATCH /sum/1/2 HTTP/1.1"), &auth, &router);
    assert!(written(&reply).starts_with("HTTP/1.1 400"));
    assert!(matches!(ex.step(Event::Written, &auth, &router), Action::Release));
    let (mut ex, _) = Exchange::new::<u32>(HOME, &auth);
    let reply = ex.step(Event::ReadFailed, &auth, &router);
    assert!(written(&reply).starts_with("HTTP/1.1 400"));
}

#[test]
fn unknown_route_is_not_found() {
    let auth = access();
    let router = routes();
    let (mut ex, _) = Exchange::new::<u32>(HOME, &auth);
    ex.step(line("GET /nothing?username=alice&password=secret HTTP/1.1"), &auth, &router);
    let reply = ex.step(line(""), &auth, &router);
    assert!(written(&reply).starts_with("HTTP/1.1 404"));
}

#[test]
fn resource_is_read_and_sent() {
    let auth = access();
    let router = routes();
    let (mut ex, _) = Exchange::new::<u32>(HOME, &auth);
    ex.step(line("GET /favicon.ico?username=alice&password=secret HTTP/1.1"), &auth, &router);
    match ex.step(line(""), &auth, &router) {
        Action::ReadFile { location, name } => {
            assert_eq!(location, "/tmp/test");
            assert_eq!(name, "favicon.ico");
        }
        _ => panic!("expected a file read"),
    }
    let reply = written(&ex.step(Event::FileRead(Some(b"ICON".to_vec())), &auth, &router));
    assert!(reply.starts_with("HTTP/1.1 200 OK\r\n"));
    assert!(reply.contains("Content-Disposition: attachment; filename=\"favicon.ico\"\r\n"));
    assert!(reply.ends_with("\r\n\r\nICON"));
}

#[test]
fn unreadable_resource_is_not_found() {
    let auth = access();
    let router = routes();
    let (mut ex, _) = Exchange::new::<u32>(HOME, &auth);
    ex.step(line("GET /favicon.ico?username=alice&password=secret HTTP/1.1"), &auth, &router);
    ex.step(line(""), &auth, &router);
    let reply = ex.step(Event::FileRead(None), &auth, &router);
    assert!(written(&reply).starts_with("HTTP/1.1 404"));
    assert!(matches!(ex.step(Event::Written, &auth, &router), Action::Release));
}

#[test]
fn unsendable_handler_response_is_internal_error() {
    let auth = access();
    let router = routes();
    let (mut ex, _) = Exchange::new::<u32>(HOME, &auth);
    ex.step(line("GET /sum/1/1?username=alice&password=secret HTTP/1.1"), &auth, &router);
    ex.step(line(""), &auth, &router);
    let bad = ServerResponse { status: 42, headers: vec![], body: None };
    let reply = ex.step(Event::Handled(Ok(bad)), &auth, &router);
    assert!(written(&reply).starts_with("HTTP/1.1 500"));
}

#[test]
fn pool_admits_up_to_capacity() {
    let mut pool = AdmissionPool::new(2);
    assert!(pool.try_admit());
    assert!(pool.try_admit());
    assert!(!pool.try_admit());
    assert_eq!(pool.active(), 2);
    assert_eq!(pool.capacity(), 2);
    pool.release();
    assert!(pool.try_admit());
    assert!(!pool.try_admit());
    pool.release();
    pool.release();
    pool.release();
    assert_eq!(pool.active(), 0);
}

#[test]
fn access_lists() {
    let auth = access();
    assert!(auth.allows(HOME));
    assert!(!auth.allows(STRANGER));
    assert!(!auth.allows(IpAddress::V6(1)));
    assert!(auth.authenticate(&Authentication::new("alice", "secret")));
    assert!(!auth.authenticate(&Authentication::new("alice", "Secret")));
}
