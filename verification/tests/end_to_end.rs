use netsim::game_state::AppState;
use netsim::json::{json_eq, JsonValue};
use netsim::node::client::{Client, ClientState, HttpMethod, RequestConfig, ResponseExpectation};
use netsim::node::database::Database;
use netsim::node::server::{Endpoint, GeneratorResultValue, Server, ServerExecution, YieldValue};
use netsim::message::Request;
use netsim::simulation::{ConnectError, Simulation};

fn get_server(handler: &str) -> Server {
    let mut server = Server::default();
    server.endpoint_handlers = vec![Endpoint {
        path: "/".to_string(),
        method: HttpMethod::Get,
        handler: handler.to_string(),
    }];
    server
}

const OK_HANDLER: &str =
    "const requestHandler = function* () {\n  return response(200, \"Ok\");\n}";

#[test]
fn client_receives_ok_from_directly_connected_server() {
    let mut sim = Simulation::new();
    let client = Client::new().request_configs(vec![RequestConfig::new(
        "s1".to_string(),
        "/".to_string(),
        HttpMethod::Get,
        "{}".to_string(),
    )]);
    let cid = sim.add_client("client".to_string(), client);
    let sid = sim.add_server("server".to_string(), "s1".to_string(), get_server(OK_HANDLER));
    sim.connect(cid, sid, 100).unwrap();
    assert!(sim.validate());
    sim.start();
    let verdict = sim.run(50);
    assert_eq!(verdict, Some(true));
    assert_eq!(sim.app_state, AppState::SimulateFinish);
    let client = sim.get_client(cid).unwrap();
    assert_eq!(client.state(), ClientState::Finished);
    let response = client.request_configs[0].response.as_ref().unwrap();
    assert_eq!(response.status, 200);
    assert!(json_eq(&response.data, &JsonValue::Str("Ok".to_string())));
}

#[test]
fn unreachable_hostname_finishes_the_client_with_a_failure() {
    let mut sim = Simulation::new();
    let client = Client::new().request_configs(vec![RequestConfig::new(
        "nowhere".to_string(),
        "/".to_string(),
        HttpMethod::Get,
        "{}".to_string(),
    )]);
    let cid = sim.add_client("client".to_string(), client);
    sim.add_server("server".to_string(), "s1".to_string(), get_server(OK_HANDLER));
    assert!(sim.validate());
    sim.start();
    let verdict = sim.run(50);
    assert_eq!(verdict, Some(false));
    let client = sim.get_client(cid).unwrap();
    assert_eq!(client.state(), ClientState::Finished);
    assert_eq!(
        client.request_configs[0].expectations_results,
        vec![(false, "ERR_CONNECTION_REFUSED".to_string())]
    );
    assert!(client.request_configs[0].response.is_none());
}

#[test]
fn unmatched_path_yields_not_found() {
    let mut sim = Simulation::new();
    let client = Client::new().request_configs(vec![RequestConfig::new(
        "s1".to_string(),
        "/missing".to_string(),
        HttpMethod::Get,
        "{}".to_string(),
    )]);
    let cid = sim.add_client("client".to_string(), client);
    let sid = sim.add_server("server".to_string(), "s1".to_string(), get_server(OK_HANDLER));
    sim.connect(cid, sid, 100).unwrap();
    assert!(sim.validate());
    sim.start();
    sim.run(50);
    let client = sim.get_client(cid).unwrap();
    let response = client.request_configs[0].response.as_ref().unwrap();
    assert_eq!(response.status, 404);
    assert!(json_eq(&response.data, &JsonValue::Str("Not found.".to_string())));
}

#[test]
fn admission_control_rejects_over_capacity() {
    // With a capacity of zero every inbound request is refused outright.
    let mut sim = Simulation::new();
    let client = Client::new().request_configs(vec![
        RequestConfig::new("s1".to_string(), "/".to_string(), HttpMethod::Get, "{}".to_string()),
    ]);
    let cid = sim.add_client("client".to_string(), client);
    let mut server = get_server(OK_HANDLER);
    server = server.with_max_concurrent_connections(Some(0));
    let sid = sim.add_server("server".to_string(), "s1".to_string(), server);
    sim.connect(cid, sid, 100).unwrap();
    assert!(sim.validate());
    sim.start();
    sim.run(50);
    let client = sim.get_client(cid).unwrap();
    let response = client.request_configs[0].response.as_ref().unwrap();
    assert_eq!(response.status, 503);
}

#[test]
fn handler_round_trips_through_a_database() {
    let handler = "const requestHandler = function* (request) {\n  const saved = yield db.save(\"db1\", request.body);\n  return response(201, saved);\n}";
    let mut sim = Simulation::new();
    let config = RequestConfig::new(
        "s1".to_string(),
        "/items".to_string(),
        HttpMethod::Post,
        "{\"name\":\"alpha\"}".to_string(),
    )
    .expect(ResponseExpectation::Status(201))
    .expect(ResponseExpectation::ExactBody(JsonValue::Obj(vec![
        ("name".to_string(), JsonValue::Str("alpha".to_string())),
        ("id".to_string(), JsonValue::Int(0)),
    ])));
    let client = Client::new().request_configs(vec![config]);
    let cid = sim.add_client("client".to_string(), client);
    let mut server = Server::default();
    server.endpoint_handlers = vec![Endpoint {
        path: "/items".to_string(),
        method: HttpMethod::Post,
        handler: handler.to_string(),
    }];
    let sid = sim.add_server("server".to_string(), "s1".to_string(), server);
    let did = sim.add_database("database".to_string(), "db1".to_string(), Database::new());
    sim.connect(cid, sid, 100).unwrap();
    sim.connect(sid, did, 101).unwrap();
    assert!(sim.validate());
    sim.start();
    let verdict = sim.run(100);
    assert_eq!(verdict, Some(true));
    let db = sim.get_database(did).unwrap();
    let stored = db.find_one(0).unwrap();
    let expected = JsonValue::Obj(vec![
        ("name".to_string(), JsonValue::Str("alpha".to_string())),
        ("id".to_string(), JsonValue::Int(0)),
    ]);
    assert!(json_eq(&stored, &expected));
}

#[test]
fn handler_sub_request_to_unreachable_hostname_answers_500() {
    let handler = "const requestHandler = function* () {\n  const upstream = yield http.get(\"nowhere\", \"/\");\n  return response(200, upstream);\n}";
    let mut sim = Simulation::new();
    let client = Client::new().request_configs(vec![RequestConfig::new(
        "s1".to_string(),
        "/".to_string(),
        HttpMethod::Get,
        "{}".to_string(),
    )]);
    let cid = sim.add_client("client".to_string(), client);
    let sid = sim.add_server("server".to_string(), "s1".to_string(), get_server(handler));
    sim.connect(cid, sid, 100).unwrap();
    assert!(sim.validate());
    sim.start();
    sim.run(50);
    let client = sim.get_client(cid).unwrap();
    let response = client.request_configs[0].response.as_ref().unwrap();
    assert_eq!(response.status, 500);
    assert!(json_eq(
        &response.data,
        &JsonValue::Str("Upstream request refused.".to_string())
    ));
}

#[test]
fn incompatible_node_types_cannot_be_wired() {
    let mut sim = Simulation::new();
    let c1 = sim.add_client("c1".to_string(), Client::new());
    let c2 = sim.add_client("c2".to_string(), Client::new());
    let d1 = sim.add_database("d1".to_string(), "db1".to_string(), Database::new());
    let d2 = sim.add_database("d2".to_string(), "db2".to_string(), Database::new());
    assert_eq!(sim.connect(c1, c2, 1), Err(ConnectError::IncompatibleNodeTypes));
    assert_eq!(sim.connect(c1, d1, 2), Err(ConnectError::IncompatibleNodeTypes));
    assert_eq!(sim.connect(d1, d2, 3), Err(ConnectError::IncompatibleNodeTypes));
    assert_eq!(sim.connect(c1, c1, 4), Err(ConnectError::SameNode));
    assert_eq!(sim.connect(c1, 999, 5), Err(ConnectError::UnknownNode));
}

#[test]
fn resolution_requires_a_direct_connection() {
    let mut sim = Simulation::new();
    let cid = sim.add_client("c".to_string(), Client::new());
    let sid = sim.add_server("s".to_string(), "s1".to_string(), Server::default());
    let name = "s1".to_string();
    assert_eq!(sim.get_connected_entity_by_hostname(cid, &name), None);
    sim.connect(cid, sid, 7).unwrap();
    assert_eq!(sim.get_connected_entity_by_hostname(cid, &name), Some(sid));
    sim.disconnect(cid, sid);
    assert_eq!(sim.get_connected_entity_by_hostname(cid, &name), None);
    let other = "absent".to_string();
    assert_eq!(sim.get_connected_entity_by_hostname(cid, &other), None);
}

#[test]
fn duplicate_hostnames_block_validation() {
    let mut sim = Simulation::new();
    sim.add_server("a".to_string(), "dup".to_string(), Server::default());
    sim.add_server("b".to_string(), "dup".to_string(), Server::default());
    assert!(!sim.validate());
    assert_eq!(sim.app_state, AppState::Edit);
}

#[test]
fn invalid_handler_scripts_block_validation() {
    let mut sim = Simulation::new();
    let mut server = Server::default();
    server.endpoint_handlers = vec![Endpoint {
        path: "/".to_string(),
        method: HttpMethod::Get,
        handler: "const requestHandler = function* ( {".to_string(),
    }];
    sim.add_server("s".to_string(), "s1".to_string(), server);
    assert!(!sim.validate());
    let mut sim2 = Simulation::new();
    sim2.add_server("s".to_string(), "s1".to_string(), Server::default());
    assert!(sim2.validate());
}

#[test]
fn replay_is_idempotent_for_a_deterministic_handler() {
    let request = Request {
        url: "s1".to_string(),
        path: "/".to_string(),
        method: HttpMethod::Get,
        body: "null".to_string(),
        params: Vec::new(),
    };
    let execution = ServerExecution::new(OK_HANDLER.to_string(), request, 1, 99);
    let first = execution.execute().expect("first drive");
    let second = execution.execute().expect("second drive");
    assert_generator_eq(&first, &second);
    assert!(first.done);
    match &first.value {
        YieldValue::Response(r) => {
            assert_eq!(r.status, 200);
            assert!(json_eq(&r.data, &JsonValue::Str("Ok".to_string())));
        }
        other => panic!("unexpected yield {:?}", other),
    }
}

fn assert_generator_eq(a: &GeneratorResultValue, b: &GeneratorResultValue) {
    assert_eq!(a.done, b.done);
    match (&a.value, &b.value) {
        (YieldValue::Response(x), YieldValue::Response(y)) => {
            assert_eq!(x.status, y.status);
            assert!(json_eq(&x.data, &y.data));
        }
        (YieldValue::Request(x), YieldValue::Request(y)) => {
            assert_eq!(x.url, y.url);
            assert_eq!(x.path, y.path);
            assert_eq!(x.body, y.body);
        }
        _ => panic!("drives disagree on the yield kind"),
    }
}

#[test]
fn endpoint_collisions_are_detected_after_normalization() {
    let mut server = Server::default();
    server.endpoint_handlers = vec![
        Endpoint {
            path: "/orders/:id".to_string(),
            method: HttpMethod::Get,
            handler: OK_HANDLER.to_string(),
        },
        Endpoint {
            path: "/orders/:orderId".to_string(),
            method: HttpMethod::Get,
            handler: OK_HANDLER.to_string(),
        },
    ];
    assert!(!server.is_valid());
    assert!(!server.is_path_valid(0));
    server.endpoint_handlers[1].method = HttpMethod::Post;
    assert!(server.is_valid());
    assert!(server.is_path_valid(0));
}

#[test]
fn server_resumes_after_an_upstream_response() {
    let front = "const requestHandler = function* () {\n  const upstream = yield http.get(\"s2\", \"/\");\n  return response(upstream.status, upstream.data);\n}";
    let mut sim = Simulation::new();
    let client = Client::new().request_configs(vec![RequestConfig::new(
        "s1".to_string(),
        "/".to_string(),
        HttpMethod::Get,
        "{}".to_string(),
    )
    .expect(ResponseExpectation::Status(200))]);
    let cid = sim.add_client("client".to_string(), client);
    let s1 = sim.add_server("front".to_string(), "s1".to_string(), get_server(front));
    let s2 = sim.add_server("back".to_string(), "s2".to_string(), get_server(OK_HANDLER));
    sim.connect(cid, s1, 100).unwrap();
    sim.connect(s1, s2, 101).unwrap();
    assert!(sim.validate());
    sim.start();
    let verdict = sim.run(100);
    assert_eq!(verdict, Some(true));
    let client = sim.get_client(cid).unwrap();
    let response = client.request_configs[0].response.as_ref().unwrap();
    assert_eq!(response.status, 200);
    assert!(json_eq(&response.data, &JsonValue::Str("Ok".to_string())));
}

#[test]
fn database_call_to_a_server_answers_bad_request() {
    let front = "const requestHandler = function* () {\n  const answer = yield db.findOne(\"s2\", 0);\n  return response(answer.status, answer.data);\n}";
    let mut sim = Simulation::new();
    let client = Client::new().request_configs(vec![RequestConfig::new(
        "s1".to_string(),
        "/".to_string(),
        HttpMethod::Get,
        "{}".to_string(),
    )]);
    let cid = sim.add_client("client".to_string(), client);
    let s1 = sim.add_server("front".to_string(), "s1".to_string(), get_server(front));
    let s2 = sim.add_server("back".to_string(), "s2".to_string(), get_server(OK_HANDLER));
    sim.connect(cid, s1, 100).unwrap();
    sim.connect(s1, s2, 101).unwrap();
    assert!(sim.validate());
    sim.start();
    sim.run(100);
    let client = sim.get_client(cid).unwrap();
    let response = client.request_configs[0].response.as_ref().unwrap();
    assert_eq!(response.status, 400);
    assert!(json_eq(&response.data, &JsonValue::Str("Bad request.".to_string())));
}

#[test]
fn malformed_yields_answer_internal_server_error() {
    let handler = "const requestHandler = function* () {\n  yield 42;\n  return response(200, \"Ok\");\n}";
    let mut sim = Simulation::new();
    let client = Client::new().request_configs(vec![RequestConfig::new(
        "s1".to_string(),
        "/".to_string(),
        HttpMethod::Get,
        "{}".to_string(),
    )]);
    let cid = sim.add_client("client".to_string(), client);
    let sid = sim.add_server("server".to_string(), "s1".to_string(), get_server(handler));
    sim.connect(cid, sid, 100).unwrap();
    assert!(sim.validate());
    sim.start();
    sim.run(50);
    let client = sim.get_client(cid).unwrap();
    let response = client.request_configs[0].response.as_ref().unwrap();
    assert_eq!(response.status, 500);
    assert!(json_eq(
        &response.data,
        &JsonValue::Str("Incorrect yield value or response.".to_string())
    ));
}
