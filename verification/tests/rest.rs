use halo::json::Json;
use halo::rest::config::{Mode, RestConf};
use halo::rest::engine::{wrap_in, Chain, Engine, Layered};
use halo::rest::middleware::{
    body_exceeds, compress_body, content_length_exceeds, decompress_body, extract_bearer, should_gunzip, should_gzip_response, validate_token,
    AuthError, TokenBucket,
};
use halo::rest::params::PathParams;
use halo::rest::request::{collect_form_values, get_remote_addr, parse_header, parse_merged};
use halo::rest::response::{bad_request, error, ok, ok_json};
use halo::rest::route::{join_path, normalize_path, with_prefix, with_root, Method, Route};
use halo::rest::route_table::sort_rows;
use halo::rest::routing::{Answer, Resolution, RestRouter};
use halo::rest::server::{auto_middlewares, AutoMiddleware, Server};
use halo::rest::routing::{to_matchit_path, RouteError};
use halo::rest::middleware::{gzip_header_edits, Compressed, HeaderEdit};
use halo::rest::request::FormError;

fn member<'a>(j: &'a Json, key: &str) -> Option<&'a Json> {
    match j {
        Json::Obj(ms) => ms.iter().find(|(k, _)| k == key).map(|(_, v)| v),
        _ => None,
    }
}

fn strs(v: &[&str]) -> Vec<String> {
    v.iter().map(|s| s.to_string()).collect()
}

#[test]
fn defaults_should_work() {
    let c = RestConf::default();
    assert_eq!(c.host, "0.0.0.0");
    assert!(c.port > 0);
    assert_eq!(c.max_connections, 10_000);
    assert_eq!(c.max_bytes, 16 * 1_048_576);
    assert_eq!(c.timeout, Some(3_000));
    assert_eq!(c.cpu_threshold, 900);
    assert_eq!(c.service.mode, Mode::Pro);
    assert!(c.middlewares.trace);
    assert!(c.middlewares.gzip);
}

#[test]
fn default_conf_is_valid() {
    assert!(RestConf::new().validate().is_ok());
    assert_eq!(RestConf::new().addr_string(), "0.0.0.0:8888");
}

#[test]
fn validate_reports_first_broken_rule() {
    let mut c = RestConf::new();
    c.port = 0;
    assert_eq!(c.validate().unwrap_err(), "Port must be > 0");
    let mut c = RestConf::new();
    c.cpu_threshold = 1000;
    assert_eq!(c.validate().unwrap_err(), "CpuThreshold out of range [0,1000): 1000");
    let mut c = RestConf::new();
    c.h2c = true;
    c.http2 = false;
    assert_eq!(c.validate().unwrap_err(), "h2c requires http2=true");
}

#[test]
fn parse_header_should_split_pairs() {
    let m = parse_header("a=1; b=2; c=3");
    assert_eq!(m.get("a").unwrap(), "1");
    assert_eq!(m.get("b").unwrap(), "2");
    assert_eq!(m.get("c").unwrap(), "3");
}

#[test]
fn normalize_path_should_strip_extra_slash() {
    assert_eq!(normalize_path("//api//v1/"), "/api/v1");
    assert_eq!(normalize_path("api/v1"), "/api/v1");
    assert_eq!(normalize_path("/"), "/");
}

#[test]
fn normalize_path_of_empty_is_root() {
    assert_eq!(normalize_path(""), "/");
    assert_eq!(normalize_path("///a"), "/a");
}

#[test]
fn with_root_should_alias_prefix() {
    let routes = vec![Route::new(Method::Get, "/list".to_string(), ())];
    let prefixed = with_root("/api", routes);
    assert_eq!(prefixed[0].path, "/api/list");
}

#[test]
fn with_prefix_should_join_correctly() {
    let routes = vec![Route::new(Method::Get, "/list".to_string(), ())];
    let prefixed = with_prefix("/api/v1", routes);
    assert_eq!(prefixed[0].path, "/api/v1/list");
}

#[test]
fn join_path_puts_one_slash_between() {
    assert_eq!(join_path("api/", "/x"), "/api/x");
    assert_eq!(join_path("/", "/"), "/");
}

#[test]
fn should_match_and_capture_params() {
    let mut router: RestRouter<u16> = RestRouter::new();
    router.add_route(Route::new(Method::Get, "/user/:id".to_string(), 200)).unwrap();
    match router.resolve(Method::Get, "/user/42") {
        Resolution::Matched { route, params } => {
            assert_eq!(router.routes[route].handler, 200);
            let params = PathParams::from_captures(params);
            assert_eq!(params.params.get("id").unwrap(), "42");
        }
        other => panic!("unexpected resolution: {:?}", other),
    }
}

#[test]
fn should_return_405_and_allow_header() {
    let mut router: RestRouter<u16> = RestRouter::new();
    router.add_route(Route::new(Method::Get, "/ping".to_string(), 200)).unwrap();
    assert_eq!(
        router.resolve(Method::Post, "/ping"),
        Resolution::NotAllowed { allow: "GET".to_string() }
    );
}

#[test]
fn should_return_404_when_not_found() {
    let router: RestRouter<u16> = RestRouter::new();
    assert_eq!(router.resolve(Method::Get, "/missing"), Resolution::NotFound);
}

#[test]
fn handle_and_dispatch_should_work() {
    let mut router: RestRouter<u16> = RestRouter::new();
    router.handle(Method::Get, "/ping", 200).unwrap();
    match router.resolve(Method::Get, "/ping") {
        Resolution::Matched { route, .. } => assert_eq!(router.routes[route].handler, 200),
        other => panic!("unexpected resolution: {:?}", other),
    }
}

#[test]
fn custom_not_found_should_fire() {
    let mut router: RestRouter<u16> = RestRouter::new();
    router.set_not_found_handler(418);
    assert_eq!(router.resolve(Method::Get, "/missing"), Resolution::NotFound);
    assert_eq!(router.not_found, Some(418));
}

#[test]
fn braces_become_parameters() {
    let mut router: RestRouter<u16> = RestRouter::new();
    router.add_route(Route::new(Method::Get, "/files/{*rest}".to_string(), 1)).unwrap();
    router.add_route(Route::new(Method::Delete, "/files/{name}".to_string(), 2)).unwrap();
    match router.resolve(Method::Get, "/files/a/b") {
        Resolution::Matched { params, .. } => {
            assert_eq!(params, vec![("rest".to_string(), "a/b".to_string())]);
        }
        other => panic!("unexpected resolution: {:?}", other),
    }
    assert_eq!(
        router.resolve(Method::Post, "/files/x"),
        Resolution::NotAllowed { allow: "GET, DELETE".to_string() }
    );
}

#[test]
fn unrooted_route_is_refused() {
    let mut router: RestRouter<u16> = RestRouter::new();
    let r = Route { method: Method::Get, path: "ping".to_string(), handler: 1 };
    assert!(router.add_route(r).is_err());
    assert_eq!(router.routes.len(), 0);
}

#[test]
fn add_routes_should_store() {
    let mut server: Server<u16, ()> = Server::new(RestConf::default());
    server.add_route(Route::new(Method::Get, "/hello".to_string(), 200));
    assert_eq!(server.routes().len(), 1);
}

#[test]
fn prefix_chain_applies_root_then_prefixes() {
    let mut server: Server<u16, &str> = Server::new(RestConf::default());
    server.with_root_prefix("/api".to_string());
    server.with_prefix("/session".to_string());
    server.use_middleware("demo");
    server.add_routes(vec![Route::new(Method::Get, "/hello".to_string(), 200)]);
    assert_eq!(server.routes()[0].path, "/api/session/hello");
    // after a registration only the root prefix remains
    server.add_route(Route::new(Method::Post, "/bye".to_string(), 201));
    assert_eq!(server.routes()[1].path, "/api/bye");
    let (router, mws) = server.build_router().unwrap();
    assert_eq!(mws, vec!["demo"]);
    assert_eq!(router.routes.len(), 2);
}

#[test]
fn route_table_sorts_and_pads() {
    let mut conf = RestConf::default();
    conf.service.mode = Mode::Dev;
    let mut server: Server<u16, ()> = Server::new(conf);
    server.with_root_prefix("/api".to_string());
    server.add_route(Route::new(Method::Post, "/b".to_string(), 1));
    server.add_route(Route::new(Method::Get, "/a".to_string(), 2));
    server.add_route(Route::new(Method::Get, "/a".to_string(), 3));
    let lines = server.route_table().unwrap();
    assert_eq!(
        lines,
        strs(&[
            "Registered routes (mode Dev):",
            "Group | Method | Path  ",
            "------+--------+-------",
            "/api  | GET    | /api/a",
            "/api  | POST   | /api/b",
        ])
    );
    let quiet: Server<u16, ()> = Server::new(RestConf::default());
    assert!(quiet.route_table().is_none());
}

#[test]
fn debug_group_labels_rows() {
    let mut conf = RestConf::default();
    conf.service.mode = Mode::Test;
    let mut server: Server<u16, ()> = Server::new(conf);
    server.set_debug_group("users".to_string());
    server.add_route(Route::new(Method::Get, "/u".to_string(), 1));
    server.clear_debug_group();
    server.add_route(Route::new(Method::Get, "/v".to_string(), 1));
    let lines = server.route_table().unwrap();
    assert_eq!(lines[3], "-     | GET    | /v  ");
    assert_eq!(lines[4], "users | GET    | /u  ");
}

#[test]
fn rows_sort_by_group_path_method() {
    let rows = vec![
        ("b".to_string(), "GET".to_string(), "/x".to_string()),
        ("a".to_string(), "POST".to_string(), "/y".to_string()),
        ("a".to_string(), "GET".to_string(), "/y".to_string()),
        ("a".to_string(), "GET".to_string(), "/y".to_string()),
    ];
    let sorted = sort_rows(&rows);
    assert_eq!(sorted.len(), 3);
    assert_eq!(sorted[0].1, "GET");
    assert_eq!(sorted[1].1, "POST");
    assert_eq!(sorted[2].0, "b");
}

#[test]
fn auto_middlewares_follow_config() {
    let c = RestConf::default();
    assert_eq!(
        auto_middlewares(&c),
        vec![AutoMiddleware::MaxBytes(16 * 1_048_576), AutoMiddleware::Timeout(3_000), AutoMiddleware::Gzip]
    );
    let mut c = RestConf::default();
    c.middlewares.max_bytes = false;
    c.middlewares.gzip = false;
    c.timeout = None;
    c.concurrency_limit = Some(4);
    assert_eq!(auto_middlewares(&c), vec![AutoMiddleware::ConcurrencyLimit(4)]);
}

#[test]
fn add_routes_should_collect() {
    let mut eng: Engine<u16, ()> = Engine::must_new(RestConf::default());
    eng.add_route(Route::new(Method::Get, "/a".to_string(), 1));
    eng.add_routes(vec![
        Route::new(Method::Get, "/b".to_string(), 2),
        Route::new(Method::Get, "/c".to_string(), 3),
    ]);
    assert_eq!(eng.routes().len(), 3);
}

#[test]
fn engine_refuses_invalid_conf() {
    let mut c = RestConf::default();
    c.workers = Some(0);
    let r: Result<Engine<u16, ()>, String> = Engine::new(c);
    assert_eq!(r.err().unwrap(), "Workers must be >= 1");
}

#[test]
fn engine_lists_routes_sorted() {
    let mut eng: Engine<u16, ()> = Engine::must_new(RestConf::default());
    eng.add_route(Route::new(Method::Post, "/b".to_string(), 1));
    eng.add_route(Route::new(Method::Get, "/z".to_string(), 2));
    eng.add_route(Route::new(Method::Get, "/a".to_string(), 3));
    assert_eq!(eng.route_lines(), strs(&["Routes:", "  GET /a", "  GET /z", "  POST /b"]));
    let server = eng.into_server();
    assert_eq!(server.routes().len(), 3);
    assert_eq!(server.routes()[2].path, "/a");
}

#[test]
fn chain_keeps_append_order() {
    let mut c: Chain<u8> = Chain::new().append(1).append(2);
    c.append_mut(3);
    assert_eq!(c.into_middlewares(), vec![1, 2, 3]);
}

#[test]
fn ok_should_set_status() {
    let resp = ok(b"hi".to_vec());
    assert_eq!(resp.status, 200);
}

#[test]
fn ok_json_should_serialize() {
    let resp = ok_json(&Json::Obj(vec![("a".to_string(), Json::Int(1))]));
    assert_eq!(resp.status, 200);
    assert_eq!(resp.headers, vec![("content-type".to_string(), "application/json".to_string())]);
    assert_eq!(resp.body, b"{\"a\":1}".to_vec());
}

#[test]
fn bad_request_should_set_400() {
    let resp = bad_request(b"oops".to_vec());
    assert_eq!(resp.status, 400);
}

#[test]
fn error_should_set_status() {
    let resp = error(401, b"nope".to_vec());
    assert_eq!(resp.status, 401);
}

#[test]
fn get_form_values_should_support_array_notations() {
    let params = collect_form_values(
        Some("names=alice&names=bob&names[]=carol&names=dave,erin"),
        Some("ids=1&ids=2&empty=&ids[]=3"),
    )
    .unwrap();
    assert_eq!(params.get("names").unwrap(), &strs(&["alice", "bob", "carol", "dave", "erin"]));
    assert_eq!(params.get("ids").unwrap(), &strs(&["1", "2", "3"]));
}

#[test]
fn parse_should_use_query_only_for_get() {
    let merged = parse_merged(
        Method::Get,
        &vec![],
        Some("a=1"),
        None,
        Some(Json::Obj(vec![("a".to_string(), Json::Str("2".to_string()))])),
    )
    .unwrap();
    assert_eq!(member(&merged, "a"), Some(&Json::Int(1)));
}

#[test]
fn parse_should_merge_path_form_json() {
    let path = vec![("id".to_string(), "42".to_string())];
    let merged = parse_merged(Method::Post, &path, Some("tags=a,b&ids=1&ids=2"), Some("tags=c&name=bob"), None).unwrap();
    assert_eq!(member(&merged, "ids"), Some(&Json::Arr(vec![Json::Int(1), Json::Int(2)])));
    assert_eq!(
        member(&merged, "tags"),
        Some(&Json::Arr(vec![
            Json::Str("a".to_string()),
            Json::Str("b".to_string()),
            Json::Str("c".to_string())
        ]))
    );
    assert_eq!(member(&merged, "name"), Some(&Json::Str("bob".to_string())));
    assert_eq!(member(&merged, "names"), None);
    assert_eq!(member(&merged, "id"), Some(&Json::Int(42)));
}

#[test]
fn json_body_overrides_form() {
    let merged = parse_merged(
        Method::Put,
        &vec![],
        Some("a=1"),
        None,
        Some(Json::Obj(vec![("a".to_string(), Json::Str("2".to_string()))])),
    )
    .unwrap();
    assert_eq!(member(&merged, "a"), Some(&Json::Str("2".to_string())));
}

#[test]
fn get_remote_addr_should_prefer_header() {
    assert_eq!(get_remote_addr(Some("1.1.1.1"), Some("2.2.2.2:80".to_string())), "1.1.1.1");
    assert_eq!(get_remote_addr(None, Some("2.2.2.2:80".to_string())), "2.2.2.2:80");
}

#[test]
fn body_limits() {
    assert!(content_length_exceeds(Some("11"), 10));
    assert!(!content_length_exceeds(Some("10"), 10));
    assert!(!content_length_exceeds(Some("abc"), 10));
    assert!(!content_length_exceeds(None, 10));
    assert!(body_exceeds(11, 10));
    assert!(!body_exceeds(10, 10));
}

#[test]
fn gzip_decisions() {
    assert!(should_gunzip(Some("GZIP")));
    assert!(!should_gunzip(Some("br")));
    assert!(should_gzip_response(false, 200, Some("deflate, GZip")));
    assert!(!should_gzip_response(true, 200, Some("gzip")));
    assert!(!should_gzip_response(false, 204, Some("gzip")));
    assert!(!should_gzip_response(false, 304, Some("gzip")));
    assert!(!should_gzip_response(false, 101, Some("gzip")));
    assert!(!should_gzip_response(false, 200, None));
}

#[test]
fn token_bucket_refills_up_to_burst() {
    let mut b = TokenBucket::new(1, 2, 0);
    assert!(b.acquire(0));
    assert!(b.acquire(0));
    assert!(!b.acquire(0));
    // five seconds later, in nanoseconds: refilled up to the burst
    assert!(b.acquire(5_000_000_000));
    assert!(b.acquire(5_000_000_000));
    assert!(!b.acquire(5_000_000_000));
}

#[test]
fn bearer_token_extraction() {
    assert_eq!(extract_bearer(Some("Bearer abc")).unwrap(), "abc");
    assert_eq!(extract_bearer(None), Err(AuthError::MissingHeader));
    assert_eq!(extract_bearer(Some("Basic abc")), Err(AuthError::InvalidBearer));
    assert_eq!(extract_bearer(Some("Bearer a b")), Err(AuthError::InvalidBearer));
    assert_eq!(validate_token(None, "s", None).err().unwrap(), AuthError::MissingHeader);
    assert!(matches!(validate_token(Some("Bearer not-a-token"), "s", None), Err(AuthError::Token(_))));
}

#[test]
fn route_errors_name_their_cause() {
    assert_eq!(to_matchit_path("/a/{*rest}/b"), Err(RouteError::WildcardNotLast("/a/{*rest}/b".to_string())));
    assert_eq!(to_matchit_path("/a/{*}"), Err(RouteError::EmptyWildcardName("/a/{*}".to_string())));
    assert_eq!(to_matchit_path("/a/{}"), Err(RouteError::EmptyParamName("/a/{}".to_string())));
    assert_eq!(to_matchit_path("a"), Err(RouteError::NotRooted));
    assert_eq!(to_matchit_path("/a/{id}/b"), Ok("/a/:id/b".to_string()));
    let mut router: RestRouter<u16> = RestRouter::new();
    router.handle(Method::Get, "/x", 1).unwrap();
    assert_eq!(router.handle(Method::Get, "/x", 2), Err(RouteError::Conflict(Method::Get, "/x".to_string())));
}

#[test]
fn gzip_round_trip() {
    let body = b"hello hello hello hello".to_vec();
    match compress_body(&body) {
        Compressed::Body(c) => {
            assert_ne!(c, body);
            assert_eq!(decompress_body(&c).unwrap(), body);
        }
        _ => panic!("expected a compressed body"),
    }
    assert!(matches!(compress_body(&[]), Compressed::Unchanged));
    assert!(decompress_body(b"not gzip").unwrap_err().starts_with("gunzip error: "));
}

#[test]
fn urlencoded_values_are_decoded() {
    let f = collect_form_values(Some("a=%20x+y&b%5B%5D=1"), None).unwrap();
    assert_eq!(f.get("a").unwrap(), &strs(&[" x y"]));
    assert_eq!(f.get("b").unwrap(), &strs(&["1"]));
}

#[test]
fn form_errors() {
    let many = vec!["a=1"; 2049].join("&");
    assert!(matches!(collect_form_values(Some(&many), None), Err(FormError::TooManyValues)));
}

#[test]
fn every_static_route_is_found() {
    let mut router: RestRouter<u16> = RestRouter::new();
    router
        .add_routes(vec![
            Route::new(Method::Get, "/a".to_string(), 0),
            Route::new(Method::Get, "/:x".to_string(), 1),
            Route::new(Method::Get, "/a/b".to_string(), 2),
            Route::new(Method::Post, "/a".to_string(), 3),
        ])
        .unwrap();
    assert_eq!(router.resolve(Method::Get, "/a"), Resolution::Matched { route: 0, params: vec![] });
    assert_eq!(router.resolve(Method::Get, "/a/b"), Resolution::Matched { route: 2, params: vec![] });
    assert_eq!(router.resolve(Method::Post, "/a"), Resolution::Matched { route: 3, params: vec![] });
    assert_eq!(
        router.resolve(Method::Get, "/z"),
        Resolution::Matched { route: 1, params: vec![("x".to_string(), "z".to_string())] }
    );
}

#[test]
fn slash_root_and_route_collapse() {
    let mut conf = RestConf::default();
    conf.port = 8080;
    conf.middlewares.gzip = false;
    conf.middlewares.max_bytes = false;
    conf.timeout = None;
    let mut server: Server<u16, &str> = Server::new(conf);
    server.with_root_prefix("/".to_string());
    server.with_prefix("/v1/api/square".to_string());
    server.with_middlewares(vec!["header"]);
    server.add_routes(vec![Route::new(Method::Get, "/".to_string(), 1)]);
    assert_eq!(server.routes()[0].path, "/v1/api/square");
    assert!(auto_middlewares(server.conf()).is_empty());
}

#[test]
fn normalize_path_collapses_runs_of_slashes() {
    assert_eq!(normalize_path("///a"), "/a");
    assert_eq!(normalize_path("a////b///"), "/a/b");
    assert_eq!(normalize_path("////"), "/");
    assert_eq!(join_path("/api//", "//v1///x"), "/api/v1/x");
}

#[test]
fn fresh_static_routes_register_and_duplicates_conflict() {
    let mut router: RestRouter<u16> = RestRouter::new();
    assert!(router.add_route(Route::new(Method::Get, "/a".to_string(), 1)).is_ok());
    assert!(router.add_route(Route::new(Method::Post, "/a".to_string(), 2)).is_ok());
    assert!(router.handle(Method::Get, "b//c/", 3).is_ok());
    assert!(router
        .add_routes(vec![
            Route::new(Method::Get, "/x".to_string(), 4),
            Route::new(Method::Get, "/x/y".to_string(), 5),
        ])
        .is_ok());
    assert_eq!(
        router.add_route(Route::new(Method::Get, "/a".to_string(), 6)),
        Err(RouteError::Conflict(Method::Get, "/a".to_string()))
    );
    match router.resolve(Method::Get, "/b/c") {
        Resolution::Matched { route, params } => {
            assert_eq!(router.routes[route].handler, 3);
            assert!(params.is_empty());
        }
        other => panic!("unexpected {other:?}"),
    }
}

#[test]
fn answer_picks_handler_or_default() {
    let mut router: RestRouter<u16> = RestRouter::new();
    router.add_route(Route::new(Method::Get, "/p".to_string(), 1)).unwrap();
    match router.answer(router.resolve(Method::Get, "/p")) {
        Answer::Route { route, params } => {
            assert_eq!(route, 0);
            assert!(params.is_empty());
        }
        _ => panic!("expected the route"),
    }
    match router.answer(router.resolve(Method::Post, "/p")) {
        Answer::Empty { status, allow } => {
            assert_eq!(status, 405);
            assert_eq!(allow, Some("GET".to_string()));
        }
        _ => panic!("expected an empty 405"),
    }
    match router.answer(router.resolve(Method::Get, "/q")) {
        Answer::Empty { status, allow } => {
            assert_eq!(status, 404);
            assert_eq!(allow, None);
        }
        _ => panic!("expected an empty 404"),
    }
    let router = router.with_not_found(9).with_not_allowed(8);
    assert!(matches!(router.answer(router.resolve(Method::Get, "/q")), Answer::NotFoundHandler));
    match router.answer(router.resolve(Method::Put, "/p")) {
        Answer::NotAllowedHandler { allow } => assert_eq!(allow, "GET"),
        _ => panic!("expected the 405 handler"),
    }
}

#[test]
fn gzip_compresses_nonempty_body_and_names_its_headers() {
    match compress_body(b"hello hello hello") {
        Compressed::Body(c) => {
            assert_eq!(&c[..2], &[0x1f, 0x8b]);
            assert_eq!(decompress_body(&c).unwrap(), b"hello hello hello".to_vec());
        }
        _ => panic!("expected a compressed body"),
    }
    assert!(matches!(compress_body(b""), Compressed::Unchanged));
    assert!(decompress_body(b"not gzip").unwrap_err().starts_with("gunzip error: "));
    let edits = gzip_header_edits();
    assert_eq!(edits.len(), 3);
    assert!(matches!(&edits[0], HeaderEdit::Put(n, v) if n == "content-encoding" && v == "gzip"));
    assert!(matches!(&edits[1], HeaderEdit::Put(n, v) if n == "vary" && v == "Accept-Encoding"));
    assert!(matches!(&edits[2], HeaderEdit::Remove(n) if n == "content-length"));
}

#[test]
fn bearer_token_without_two_dots_is_refused() {
    match validate_token(Some("Bearer abc"), "s", Some("p")) {
        Err(AuthError::Token(m)) => assert_eq!(m, "InvalidToken"),
        _ => panic!("expected a token error"),
    }
}

fn layer_order(l: &Layered<&'static str, u8>, out: &mut Vec<u8>) -> &'static str {
    match l {
        Layered::Handler(h) => h,
        Layered::Layer(m, inner) => {
            out.push(*m);
            layer_order(inner, out)
        }
    }
}

#[test]
fn chain_then_puts_first_middleware_outermost() {
    let c: Chain<u8> = Chain::new().append(1).append(2).append(3);
    let l = c.then("h");
    let mut seen = Vec::new();
    assert_eq!(layer_order(&l, &mut seen), "h");
    assert_eq!(seen, vec![1, 2, 3]);
    let l = wrap_in("g", Vec::<u8>::new());
    assert!(matches!(l, Layered::Handler("g")));
}

#[test]
fn not_allowed_lists_each_method_once() {
    let mut router: RestRouter<u16> = RestRouter::new();
    router.add_route(Route::new(Method::Get, "/ping".to_string(), 1)).unwrap();
    router.add_route(Route::new(Method::Put, "/ping".to_string(), 2)).unwrap();
    router.add_route(Route::new(Method::Get, "/other".to_string(), 3)).unwrap();
    assert_eq!(router.trees.len(), 2);
    assert_eq!(router.resolve(Method::Post, "/ping"), Resolution::NotAllowed { allow: "GET, PUT".to_string() });
    assert_eq!(router.resolve(Method::Post, "/other"), Resolution::NotAllowed { allow: "GET".to_string() });
    assert_eq!(router.resolve(Method::Post, "/none"), Resolution::NotFound);
}
