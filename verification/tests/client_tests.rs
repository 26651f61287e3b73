use lor_api_wrapper::{GameStatus, LoRClient};

#[test]
fn game_status_result_cases() {
    assert_eq!(GameStatus::new(-1, false).result(), "No games played");
    assert_eq!(GameStatus::new(-1, true).result(), "No games played");
    assert_eq!(GameStatus::new(3, true).result(), "Win");
    assert_eq!(GameStatus::new(3, false).result(), "Loss");
}

#[test]
fn client_builds_localhost_base_url() {
    let client = LoRClient::new("SECRET-REDACTED".to_string(), 21337);
    assert_eq!(client.base_url(), "http://localhost:21337");
    assert_eq!(client.port(), 21337);
    assert_eq!(client.api_key(), "SECRET-REDACTED");
}

#[test]
fn client_endpoint_urls() {
    let client = LoRClient::new("key".to_string(), 8080);
    assert_eq!(
        client.endpoint_url("positional-rectangles"),
        "http://localhost:8080/positional-rectangles"
    );
    assert_eq!(
        client.endpoint_url("expeditions-state"),
        "http://localhost:8080/expeditions-state"
    );
}

#[test]
fn client_port_edges() {
    assert_eq!(LoRClient::new(String::new(), 0).base_url(), "http://localhost:0");
    assert_eq!(
        LoRClient::new(String::new(), 65535).base_url(),
        "http://localhost:65535"
    );
}
