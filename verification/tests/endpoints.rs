use bdd_rust_multiprotocol_server::activity::{request, response, ActivityKind};
use bdd_rust_multiprotocol_server::protocols::graphql::{graphql_exchange, hello};
use bdd_rust_multiprotocol_server::protocols::grpc::say_hello_exchange;
use bdd_rust_multiprotocol_server::protocols::protocol_response;
use bdd_rust_multiprotocol_server::protocols::rest::hello_exchange;
use bdd_rust_multiprotocol_server::{fix_port, grpc_port, health_exchange};

#[test]
fn protocol_response_appends_message() {
    assert_eq!(protocol_response("REST"), "REST message");
    assert_eq!(protocol_response(""), " message");
    assert_eq!(hello(), "GraphQL message");
}

#[test]
fn rest_hello_counts_payload_bytes() {
    let (body, exchange) = hello_exchange(Some("héllo"));
    assert_eq!(body, "REST message");
    assert_eq!(exchange.protocol, "rest");
    assert!(exchange.success);
    assert_eq!(exchange.request_bytes, 6);
    assert_eq!(exchange.response_bytes, 12);
    let (_, none) = hello_exchange(None);
    assert_eq!(none.request_bytes, 0);
}

#[test]
fn grpc_say_hello_counts_name_and_payload() {
    let (message, exchange) = say_hello_exchange("Ada", "xyz12");
    assert!(message.starts_with("gRPC"));
    assert_eq!(message, "gRPC message");
    assert_eq!(exchange.protocol, "grpc");
    assert_eq!(exchange.request_bytes, 8);
    assert_eq!(exchange.response_bytes, 12);
}

#[test]
fn graphql_success_means_no_errors() {
    let ok = graphql_exchange(17, Some(40), 0);
    assert_eq!(ok.protocol, "graphql");
    assert!(ok.success);
    assert_eq!(ok.request_bytes, 17);
    assert_eq!(ok.response_bytes, 40);
    let failed = graphql_exchange(3, None, 2);
    assert!(!failed.success);
    assert_eq!(failed.response_bytes, 0);
}

#[test]
fn health_answers_ok() {
    let (body, exchange) = health_exchange();
    assert_eq!(body, "ok");
    assert_eq!(exchange.protocol, "health");
    assert_eq!(exchange.request_bytes, 0);
    assert_eq!(exchange.response_bytes, 2);
}

#[test]
fn side_ports_follow_the_http_port() {
    assert_eq!(grpc_port(8080), 8081);
    assert_eq!(fix_port(8080), 8082);
    assert_eq!(grpc_port(65534), 65535);
    assert_eq!(fix_port(65533), 65535);
}

#[test]
fn activity_records_carry_their_fields() {
    let r = request("fix", "message_bytes=12");
    assert_eq!(r.kind, ActivityKind::Request);
    assert_eq!(r.protocol, "fix");
    assert_eq!(r.details, "message_bytes=12");
    assert_eq!(r.duration_us, None);
    let s = response("grpc", "gRPC message", 1_999_999, 12);
    assert_eq!(s.kind, ActivityKind::Response);
    assert_eq!(s.duration_us, Some(1_999));
    assert_eq!(s.response_bytes, Some(12));
}
