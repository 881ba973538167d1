use minikv::volume_node::{advertised_address, heartbeat_url};

#[test]
fn volumes_advertise_a_url_for_their_grpc_address() {
    assert_eq!(advertised_address("0.0.0.0:50051", true, 50051, None), "http://127.0.0.1:50051");
    assert_eq!(advertised_address("10.0.0.5:50051", false, 50051, None), "http://10.0.0.5:50051");
    assert_eq!(advertised_address("0.0.0.0:1", true, 1, Some("vol-1:7000".to_string())), "http://vol-1:7000");
    assert_eq!(advertised_address("0.0.0.0:1", true, 1, Some("https://vol-1".to_string())), "https://vol-1");
    assert_eq!(advertised_address("0.0.0.0:1", true, 1, Some("http://vol-1".to_string())), "http://vol-1");
}

#[test]
fn heartbeats_go_to_the_internal_endpoint() {
    assert_eq!(heartbeat_url("http://c1:5000/"), "http://c1:5000/internal/volumes/heartbeat");
    assert_eq!(heartbeat_url("http://c1:5000//"), "http://c1:5000/internal/volumes/heartbeat");
    assert_eq!(heartbeat_url("http://c1:5000"), "http://c1:5000/internal/volumes/heartbeat");
    assert_eq!(heartbeat_url(""), "/internal/volumes/heartbeat");
}
