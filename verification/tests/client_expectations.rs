use netsim::json::JsonValue;
use netsim::message::Response;
use netsim::node::client::{
    get_expectation_result, Client, ClientState, HttpMethod, RequestConfig, ResponseExpectation,
};
use netsim::node::NodeType;

#[test]
fn expectation_result_text_on_pass_and_failure() {
    let (passed, msg) = get_expectation_result(
        "status",
        &JsonValue::Int(200),
        &JsonValue::Int(200),
    );
    assert!(passed);
    assert_eq!(msg, "Expected status 200");
    let (passed, msg) = get_expectation_result(
        "status",
        &JsonValue::Int(200),
        &JsonValue::Int(404),
    );
    assert!(!passed);
    assert_eq!(msg, "Expected status 200, received 404");
}

#[test]
fn exact_body_expectation_compares_deeply() {
    let response = Response {
        status: 200,
        data: JsonValue::Obj(vec![("a".to_string(), JsonValue::Int(1))]),
    };
    let expectation =
        ResponseExpectation::ExactBody(JsonValue::Obj(vec![("a".to_string(), JsonValue::Int(1))]));
    let (passed, msg) = expectation.verify(&response);
    assert!(passed);
    assert_eq!(msg, "Expected body {\"a\":1}");
}

#[test]
fn exact_set_expectation_ignores_order_but_not_cardinality() {
    let response = Response {
        status: 200,
        data: JsonValue::Arr(vec![JsonValue::Int(2), JsonValue::Int(1)]),
    };
    let unordered = ResponseExpectation::ExactSet(vec![JsonValue::Int(1), JsonValue::Int(2)]);
    assert!(unordered.verify(&response).0);
    let short = ResponseExpectation::ExactSet(vec![JsonValue::Int(1)]);
    assert!(!short.verify(&response).0);
    let wrong_shape = Response { status: 200, data: JsonValue::Int(1) };
    let (passed, msg) = unordered.verify(&wrong_shape);
    assert!(!passed);
    assert_eq!(msg, "");
}

#[test]
fn body_validity_requires_json_text() {
    let good = RequestConfig::new(
        "s".to_string(),
        "/".to_string(),
        HttpMethod::Post,
        "{\"a\": 1}".to_string(),
    );
    assert!(good.is_body_valid());
    assert!(good.is_valid());
    let bad = RequestConfig::new(
        "s".to_string(),
        "/".to_string(),
        HttpMethod::Post,
        "{".to_string(),
    );
    assert!(!bad.is_body_valid());
    assert!(!bad.is_valid());
    let empty_url = RequestConfig::new(
        "".to_string(),
        "/".to_string(),
        HttpMethod::Get,
        "{}".to_string(),
    );
    assert!(!empty_url.is_valid());
}

#[test]
fn bodyless_methods_send_null() {
    let get = RequestConfig::new(
        "s".to_string(),
        "/".to_string(),
        HttpMethod::Get,
        "{\"ignored\":true}".to_string(),
    );
    assert_eq!(get.to_request().body, "null");
    let post = RequestConfig::new(
        "s".to_string(),
        "/".to_string(),
        HttpMethod::Post,
        "{\"kept\":true}".to_string(),
    );
    assert_eq!(post.to_request().body, "{\"kept\":true}");
}

#[test]
fn fresh_configurations_carry_distinct_trace_ids() {
    let a = RequestConfig::default();
    let b = RequestConfig::default();
    assert_ne!(a.trace_id(), b.trace_id());
}

#[test]
fn client_without_response_fails_verification() {
    let mut client = Client::new().request_configs(vec![RequestConfig::new(
        "s".to_string(),
        "/".to_string(),
        HttpMethod::Get,
        "{}".to_string(),
    )]);
    assert!(!client.verify());
}

#[test]
fn client_starts_into_sending_state() {
    let mut client = Client::new();
    assert_eq!(client.state(), ClientState::SimulationNotStarted);
    client.start_simulation();
    assert_eq!(client.state(), ClientState::SendNextRequest);
    client.reset();
    assert_eq!(client.state(), ClientState::SimulationNotStarted);
}

#[test]
fn texture_paths_follow_the_node_kind() {
    assert_eq!(
        NodeType::Client.get_texture_path(),
        "textures/system_components/client.png"
    );
    assert_eq!(
        NodeType::Database.get_texture_path(),
        "textures/system_components/database.png"
    );
}
